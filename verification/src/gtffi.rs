//! The tables handed to the gigatoken C ABI (`gt_llama_*`).
//!
//! The ABI's `#[repr(C)]` structs hold raw pointers and `f32` scores, so they
//! are assembled by the host code around this library; here the content of
//! those tables is computed from a parsed GGUF `Vocab`: per-token text, score
//! bits and GT token type, and the merge list resolved to ids.
use vstd::prelude::*;
use vstd::string::*;
use crate::gguf::{Vocab, VocabView};
use crate::index::{absent, first_id, is_first_index, lemma_first_id};
use crate::textutil::append_bytes;

verus! {

/// GT status codes.
pub const GT_LLAMA_STATUS_OK: i32 = 0;

// GT token type.
pub const GT_LLAMA_TOKEN_TYPE_NORMAL: u32 = 0;
pub const GT_LLAMA_TOKEN_TYPE_BYTE: u32 = 1;
pub const GT_LLAMA_TOKEN_TYPE_SPECIAL: u32 = 2;

// GT pretokenizer enum.
pub const GT_LLAMA_PRETOKENIZER_QWEN35: u32 = 3;

// BPE flags.
pub const GT_LLAMA_BPE_FLAG_VOCAB_ID_RANKS: u32 = 1 << 1;

/// Error returned when loading/using the gigatoken C ABI.
#[derive(Debug)]
pub struct GtError(pub String);

impl GtError {
    /// The error as displayed: its message after a `gigatoken: ` prefix.
    pub fn to_string(&self) -> (s: String)
        ensures
            s@ == "gigatoken: "@ + self.0@,
    {
        let mut s = String::from_str("gigatoken: ");
        s.append(self.0.as_str());
        s
    }
}

/// `gt_llama_merge` — 16 bytes.
#[derive(Clone, Copy, PartialEq, Eq, Debug)]
pub struct GtLlamaMerge {
    pub left: u32,
    pub right: u32,
    pub merged: u32,
    pub rank: u32,
}

/// The content of one `gt_llama_vocab_token`: the token text, the bits of its
/// `f32` score, and its GT token type.
pub struct GtVocabEntry {
    pub text: Vec<u8>,
    pub score_bits: u32,
    pub token_type: u32,
}

/// The GT token type of a GGUF token type: GGUF BYTE(6) -> GT BYTE(1),
/// GGUF NORMAL(1) -> GT NORMAL(0), anything else -> GT SPECIAL(2).
pub open spec fn spec_gt_token_type(g: u32) -> u32 {
    if g == 6 {
        GT_LLAMA_TOKEN_TYPE_BYTE
    } else if g == 1 {
        GT_LLAMA_TOKEN_TYPE_NORMAL
    } else {
        GT_LLAMA_TOKEN_TYPE_SPECIAL
    }
}

/// Translate a GGUF token_type to the GT enum.
///
/// Gigatoken's `token_type()` maps GGUF BYTE(6) -> GT BYTE(1) and every other
/// non-NORMAL type -> GT SPECIAL(2); GGUF NORMAL(1) -> GT NORMAL(0).
pub fn gt_token_type(gbuf: u32) -> (t: u32)
    ensures
        t == spec_gt_token_type(gbuf),
        gbuf == 1 ==> t == 0,
        gbuf == 6 ==> t == 1,
        gbuf != 1 && gbuf != 6 ==> t == 2,
{
    match gbuf {
        6 => GT_LLAMA_TOKEN_TYPE_BYTE,
        1 => GT_LLAMA_TOKEN_TYPE_NORMAL,
        _ => GT_LLAMA_TOKEN_TYPE_SPECIAL,
    }
}

/// The GGUF to GT token type table: GGUF NORMAL (1) is GT NORMAL (0), GGUF
/// BYTE (6) is GT BYTE (1), and every other GGUF type (unknown, control,
/// user-defined, unused, ...) is GT SPECIAL (2).
pub proof fn lemma_gt_token_type_table(g: u32)
    ensures
        g == 1 ==> spec_gt_token_type(g) == 0,
        g == 6 ==> spec_gt_token_type(g) == 1,
        g != 1 && g != 6 ==> spec_gt_token_type(g) == 2,
        spec_gt_token_type(g) == 0 <==> g == 1,
        spec_gt_token_type(g) == 1 <==> g == 6,
{
}

/// The score bits of token `i` (0, the bits of `0.0`, when absent).
pub open spec fn entry_score_bits(v: VocabView, i: int) -> u32 {
    if i < v.score_bits.len() {
        v.score_bits[i]
    } else {
        0
    }
}

/// The GT token type of token `i` (GGUF NORMAL when absent).
pub open spec fn entry_token_type(v: VocabView, i: int) -> u32 {
    spec_gt_token_type(
        if i < v.token_types.len() {
            v.token_types[i]
        } else {
            1
        },
    )
}

/// The GT type of each built table entry: a token typed GGUF NORMAL (1), or
/// with no type given, is GT NORMAL (0); one typed GGUF BYTE (6) is GT BYTE
/// (1); one of any other GGUF type is GT SPECIAL (2).
pub proof fn lemma_entry_token_types(v: VocabView, i: int)
    requires
        0 <= i,
    ensures
        i < v.token_types.len() && v.token_types[i] == 1 ==> entry_token_type(v, i) == 0,
        i < v.token_types.len() && v.token_types[i] == 6 ==> entry_token_type(v, i) == 1,
        i < v.token_types.len() && v.token_types[i] != 1 && v.token_types[i] != 6
            ==> entry_token_type(v, i) == 2,
        i >= v.token_types.len() ==> entry_token_type(v, i) == 0,
{
}

/// The id of `text`, or `u32::MAX` when no token has it.
pub open spec fn id_or_max(texts: Seq<Seq<u8>>, text: Seq<u8>) -> u32 {
    match first_id(texts, text) {
        Some(i) => i,
        None => u32::MAX,
    }
}

/// The GT merge for the vocabulary merge of rank `rank`: skipped when a side
/// is empty or when a side or their concatenation has no id (an id of
/// `u32::MAX` counts as none).
pub open spec fn gt_merge_of(texts: Seq<Seq<u8>>, m: (Seq<u8>, Seq<u8>), rank: int) -> Option<
    (u32, u32, u32, u32),
> {
    if m.0.len() == 0 || m.1.len() == 0 {
        None
    } else {
        let li = id_or_max(texts, m.0);
        let ri = id_or_max(texts, m.1);
        let mi = id_or_max(texts, m.0 + m.1);
        if li == u32::MAX || ri == u32::MAX || mi == u32::MAX {
            None
        } else {
            Some((li, ri, mi, rank as u32))
        }
    }
}

/// The GT merges of the first `n` vocabulary merges, in rank order.
pub open spec fn gt_merges_upto(texts: Seq<Seq<u8>>, merges: Seq<(Seq<u8>, Seq<u8>)>, n: int) -> Seq<
    (u32, u32, u32, u32),
>
    decreases n,
{
    if n <= 0 {
        seq![]
    } else {
        let prev = gt_merges_upto(texts, merges, n - 1);
        match gt_merge_of(texts, merges[n - 1], n - 1) {
            Some(t) => prev.push(t),
            None => prev,
        }
    }
}

/// `i` is the lowest id of `t`, and it is below `u32::MAX`.
pub open spec fn lowest_usable_id(texts: Seq<Seq<u8>>, t: Seq<u8>, i: int) -> bool {
    is_first_index(texts, t, i) && i < u32::MAX
}

/// `t` occurs at some id below `u32::MAX`.
pub open spec fn has_usable_id(texts: Seq<Seq<u8>>, t: Seq<u8>) -> bool {
    exists|i: int| 0 <= i < texts.len() && i < u32::MAX && texts[i] == t
}

proof fn lemma_id_or_max(texts: Seq<Seq<u8>>, t: Seq<u8>)
    requires
        texts.len() <= 0x1_0000_0000,
    ensures
        id_or_max(texts, t) != u32::MAX ==> lowest_usable_id(texts, t, id_or_max(texts, t) as int),
        has_usable_id(texts, t) ==> id_or_max(texts, t) != u32::MAX,
{
    lemma_first_id(texts, t);
    if has_usable_id(texts, t) {
        let i = choose|i: int| 0 <= i < texts.len() && i < u32::MAX && texts[i] == t;
        assert(!absent(texts, t));
        let f = first_id(texts, t).unwrap();
        assert(is_first_index(texts, t, f as int));
        if (f as int) > i {
            assert(texts[i] != t);
        }
    }
}

/// The GT merge table built from a vocabulary: each entry is a vocabulary
/// merge of nonempty sides, named by its rank, whose left, right and merged
/// ids are the lowest ids of the two sides and of their concatenation; the
/// ranks strictly increase; and every merge whose three texts have ids
/// below `u32::MAX` is in the table.
pub proof fn lemma_gt_merges_table(texts: Seq<Seq<u8>>, merges: Seq<(Seq<u8>, Seq<u8>)>, n: int)
    requires
        texts.len() <= 0x1_0000_0000,
        0 <= n <= merges.len(),
        n <= 0x1_0000_0000,
    ensures
        forall|k: int|
            0 <= k < gt_merges_upto(texts, merges, n).len() ==> {
                let (l, r, mg, rk) = #[trigger] gt_merges_upto(texts, merges, n)[k];
                &&& rk < n
                &&& merges[rk as int].0.len() > 0
                &&& merges[rk as int].1.len() > 0
                &&& lowest_usable_id(texts, merges[rk as int].0, l as int)
                &&& lowest_usable_id(texts, merges[rk as int].1, r as int)
                &&& lowest_usable_id(texts, merges[rk as int].0 + merges[rk as int].1, mg as int)
            },
        forall|a: int, b: int|
            0 <= a < b < gt_merges_upto(texts, merges, n).len() ==> (#[trigger] gt_merges_upto(
                texts,
                merges,
                n,
            )[a]).3 < (#[trigger] gt_merges_upto(texts, merges, n)[b]).3,
        forall|rk: int|
            0 <= rk < n && merges[rk].0.len() > 0 && merges[rk].1.len() > 0 && has_usable_id(
                texts,
                merges[rk].0,
            ) && has_usable_id(texts, merges[rk].1) && has_usable_id(
                texts,
                merges[rk].0 + merges[rk].1,
            ) ==> exists|k: int|
                0 <= k < gt_merges_upto(texts, merges, n).len() && (#[trigger] gt_merges_upto(
                    texts,
                    merges,
                    n,
                )[k]).3 == rk,
    decreases n,
{
    if n > 0 {
        lemma_gt_merges_table(texts, merges, n - 1);
        let prev = gt_merges_upto(texts, merges, n - 1);
        let cur = gt_merges_upto(texts, merges, n);
        let m = merges[n - 1];
        lemma_id_or_max(texts, m.0);
        lemma_id_or_max(texts, m.1);
        lemma_id_or_max(texts, m.0 + m.1);
        assert forall|k: int| 0 <= k < prev.len() implies cur[k] == prev[k] by {
        }
        assert forall|rk: int|
            0 <= rk < n && merges[rk].0.len() > 0 && merges[rk].1.len() > 0 && has_usable_id(
                texts,
                merges[rk].0,
            ) && has_usable_id(texts, merges[rk].1) && has_usable_id(
                texts,
                merges[rk].0 + merges[rk].1,
            ) implies exists|k: int| 0 <= k < cur.len() && (#[trigger] cur[k]).3 == rk by {
            if rk < n - 1 {
                let k = choose|k: int| 0 <= k < prev.len() && (#[trigger] prev[k]).3 == rk;
                assert(cur[k] == prev[k]);
            } else {
                assert(cur[prev.len() as int].3 == rk);
            }
        }
    }
}

/// The fields of a list of GT merges.
pub open spec fn merge_fields(ms: Seq<GtLlamaMerge>) -> Seq<(u32, u32, u32, u32)> {
    ms.map_values(|m: GtLlamaMerge| (m.left, m.right, m.merged, m.rank))
}

/// Build the vocab-token and merge tables for the gigatoken C ABI from a
/// parsed GGUF `Vocab` (ids are `u32`, so it holds at most 2^32 tokens).
///
/// Token texts are passed through unchanged: gigatoken (like llama.cpp)
/// accepts byte tokens in their stored `bytes_to_unicode` form.
pub fn build_tables(vocab: &Vocab) -> (res: (Vec<GtVocabEntry>, Vec<GtLlamaMerge>))
    requires
        vocab.tokens@.len() <= 0x1_0000_0000,
    ensures
        res.0@.len() == vocab@.tokens.len(),
        forall|i: int|
            0 <= i < res.0@.len() ==> {
                &&& (#[trigger] res.0@[i]).text@ == vocab@.tokens[i]
                &&& res.0@[i].score_bits == entry_score_bits(vocab@, i)
                &&& res.0@[i].token_type == entry_token_type(vocab@, i)
            },
        merge_fields(res.1@) == gt_merges_upto(
            vocab@.tokens,
            vocab@.merges,
            vocab@.merges.len() as int,
        ),
{
    let ghost v = vocab@;
    let mut tokens: Vec<GtVocabEntry> = Vec::new();
    let n = vocab.tokens.len();
    let mut i: usize = 0;
    while i < n
        invariant
            0 <= i <= n,
            n == vocab.tokens@.len(),
            v == vocab@,
            tokens@.len() == i,
            forall|j: int|
                0 <= j < i ==> {
                    &&& (#[trigger] tokens@[j]).text@ == v.tokens[j]
                    &&& tokens@[j].score_bits == entry_score_bits(v, j)
                    &&& tokens@[j].token_type == entry_token_type(v, j)
                },
        decreases n - i,
    {
        let score_bits: u32 = if i < vocab.score_bits.len() {
            vocab.score_bits[i]
        } else {
            0
        };
        let gtype: u32 = if i < vocab.token_types.len() {
            vocab.token_types[i]
        } else {
            1
        };
        let text = vstd::slice::slice_to_vec(vocab.tokens[i].as_slice());
        tokens.push(GtVocabEntry { text, score_bits, token_type: gt_token_type(gtype) });
        i = i + 1;
    }

    // Resolve merge ids via the text->id map.
    let text_to_id = vocab.text_to_id();
    let mut merges: Vec<GtLlamaMerge> = Vec::new();
    let mut rank: usize = 0;
    assert(merge_fields(merges@) =~= seq![]);
    while rank < vocab.merges.len()
        invariant
            0 <= rank <= vocab.merges@.len(),
            v == vocab@,
            text_to_id.texts() == v.tokens,
            merge_fields(merges@) == gt_merges_upto(v.tokens, v.merges, rank as int),
        decreases vocab.merges@.len() - rank,
    {
        let left = &vocab.merges[rank].0;
        let right = &vocab.merges[rank].1;
        assert(v.merges[rank as int] == (left@, right@));
        let ghost before = merges@;
        if left.len() != 0 && right.len() != 0 {
            let li = match text_to_id.get(left.as_slice()) {
                Some(x) => x,
                None => u32::MAX,
            };
            let ri = match text_to_id.get(right.as_slice()) {
                Some(x) => x,
                None => u32::MAX,
            };
            let mut m = vstd::slice::slice_to_vec(left.as_slice());
            append_bytes(&mut m, right.as_slice());
            let mi = match text_to_id.get(m.as_slice()) {
                Some(x) => x,
                None => u32::MAX,
            };
            if li != u32::MAX && ri != u32::MAX && mi != u32::MAX {
                merges.push(GtLlamaMerge { left: li, right: ri, merged: mi, rank: rank as u32 });
            }
        }
        assert(merge_fields(merges@) =~= gt_merges_upto(v.tokens, v.merges, rank + 1));
        rank = rank + 1;
    }
    (tokens, merges)
}

} // verus!
