//! A text -> id index over a token list.
//!
//! Tokens are bucketed by a 64-bit FNV-1a hash of their bytes; each bucket
//! lists, in increasing order, every id whose text has that hash, so a lookup
//! scans one bucket and returns the lowest id whose text matches.
use vstd::prelude::*;
use vstd::hash_map::HashMapWithView;
use vstd::std_specs::hash::axiom_u64_obeys_hash_table_key_model;
use crate::textutil::{byte_strings, bytes_eq, clone_byte_strings};

verus! {

pub const FNV_OFFSET: u64 = 0xcbf2_9ce4_8422_2325;
pub const FNV_PRIME: u64 = 0x0000_0100_0000_01b3;

/// The 64-bit FNV-1a hash of `s`.
pub open spec fn fnv1a(s: Seq<u8>) -> u64
    decreases s.len(),
{
    if s.len() == 0 {
        FNV_OFFSET
    } else {
        vstd::wrapping::u64_specs::wrapping_mul(fnv1a(s.drop_last()) ^ (s.last() as u64), FNV_PRIME)
    }
}

/// Compute the 64-bit FNV-1a hash of `s`.
pub fn fnv1a_hash(s: &[u8]) -> (h: u64)
    ensures
        h == fnv1a(s@),
{
    let mut h: u64 = FNV_OFFSET;
    let mut i: usize = 0;
    while i < s.len()
        invariant
            0 <= i <= s@.len(),
            h == fnv1a(s@.subrange(0, i as int)),
        decreases s@.len() - i,
    {
        assert(s@.subrange(0, i + 1).drop_last() =~= s@.subrange(0, i as int));
        h = (h ^ (s[i] as u64)).wrapping_mul(FNV_PRIME);
        i = i + 1;
    }
    assert(s@.subrange(0, s@.len() as int) =~= s@);
    h
}

/// `i` is the lowest index at which `text` occurs in `texts`.
pub open spec fn is_first_index(texts: Seq<Seq<u8>>, text: Seq<u8>, i: int) -> bool {
    &&& 0 <= i < texts.len()
    &&& texts[i] == text
    &&& forall|j: int| 0 <= j < i ==> texts[j] != text
}

/// `text` occurs nowhere in `texts`.
pub open spec fn absent(texts: Seq<Seq<u8>>, text: Seq<u8>) -> bool {
    forall|j: int| 0 <= j < texts.len() ==> texts[j] != text
}

/// The lowest id at which `text` occurs in `texts`, if any.
pub open spec fn first_id(texts: Seq<Seq<u8>>, text: Seq<u8>) -> Option<u32> {
    if exists|i: int| is_first_index(texts, text, i) {
        Some((choose|i: int| is_first_index(texts, text, i)) as u32)
    } else {
        None
    }
}

/// The lowest index of a text is unique.
pub proof fn lemma_first_index_unique(texts: Seq<Seq<u8>>, text: Seq<u8>, i: int, j: int)
    requires
        is_first_index(texts, text, i),
        is_first_index(texts, text, j),
    ensures
        i == j,
{
    if i < j {
        assert(texts[i] == text);
    } else if j < i {
        assert(texts[j] == text);
    }
}

/// `first_id` agrees with `is_first_index` and `absent`.
pub proof fn lemma_first_id(texts: Seq<Seq<u8>>, text: Seq<u8>)
    requires
        texts.len() <= 0x1_0000_0000,
    ensures
        forall|i: int| is_first_index(texts, text, i) ==> first_id(texts, text) == Some(i as u32),
        absent(texts, text) ==> first_id(texts, text) is None,
        first_id(texts, text) is None ==> absent(texts, text),
        first_id(texts, text) matches Some(i) ==> is_first_index(texts, text, i as int),
{
    if exists|i: int| is_first_index(texts, text, i) {
        let c = choose|i: int| is_first_index(texts, text, i);
        assert forall|i: int| is_first_index(texts, text, i) implies first_id(texts, text) == Some(
            i as u32,
        ) by {
            lemma_first_index_unique(texts, text, i, c);
        }
        assert(!absent(texts, text));
    } else {
        if !absent(texts, text) {
            lemma_some_first_index(texts, text, texts.len() as int);
        }
    }
}

/// If `text` occurs among the first `n` texts, it has a lowest index.
proof fn lemma_some_first_index(texts: Seq<Seq<u8>>, text: Seq<u8>, n: int)
    requires
        0 <= n <= texts.len(),
        exists|j: int| 0 <= j < n && texts[j] == text,
    ensures
        exists|i: int| is_first_index(texts, text, i),
    decreases n,
{
    if exists|j: int| 0 <= j < n - 1 && texts[j] == text {
        lemma_some_first_index(texts, text, n - 1);
    } else {
        assert(is_first_index(texts, text, n - 1));
    }
}

/// A text -> lowest id index over a list of token texts.
pub struct TextIndex {
    tokens: Vec<Vec<u8>>,
    buckets: HashMapWithView<u64, Vec<u32>>,
}

/// The bucket map `m` indexes exactly the texts `t`, each bucket in
/// increasing id order.
pub open spec fn buckets_index(m: Map<u64, Vec<u32>>, t: Seq<Seq<u8>>) -> bool {
    &&& forall|h: u64, k: int|
        #![trigger m[h]@[k]]
        m.contains_key(h) && 0 <= k < m[h]@.len() ==> m[h]@[k] < t.len() && fnv1a(
            t[m[h]@[k] as int],
        ) == h
    &&& forall|h: u64, k1: int, k2: int|
        #![trigger m[h]@[k1], m[h]@[k2]]
        m.contains_key(h) && 0 <= k1 < k2 < m[h]@.len() ==> m[h]@[k1] < m[h]@[k2]
    &&& forall|i: int|
        #![trigger t[i]]
        0 <= i < t.len() ==> m.contains_key(fnv1a(t[i])) && m[fnv1a(t[i])]@.contains(i as u32)
}

impl TextIndex {
    #[verifier::type_invariant]
    spec fn inv(self) -> bool {
        &&& self.tokens@.len() <= 0x1_0000_0000
        &&& buckets_index(self.buckets@, byte_strings(self.tokens@))
    }

    /// The indexed texts, by id.
    pub closed spec fn texts(self) -> Seq<Seq<u8>> {
        byte_strings(self.tokens@)
    }

    /// Index `tokens` (ids are `u32`, so at most 2^32 of them).
    pub fn build(tokens: &Vec<Vec<u8>>) -> (idx: TextIndex)
        requires
            tokens@.len() <= 0x1_0000_0000,
        ensures
            idx.texts() == byte_strings(tokens@),
    {
        broadcast use axiom_u64_obeys_hash_table_key_model;

        let copy = clone_byte_strings(tokens);
        let ghost t = byte_strings(tokens@);
        let mut buckets: HashMapWithView<u64, Vec<u32>> = HashMapWithView::new();
        let n = tokens.len();
        let mut i: usize = 0;
        while i < n
            invariant
                0 <= i <= n,
                n == tokens@.len(),
                n <= 0x1_0000_0000,
                t == byte_strings(tokens@),
                buckets_index(buckets@, t.subrange(0, i as int)),
            decreases n - i,
        {
            let h = fnv1a_hash(tokens[i].as_slice());
            let ghost old_m = buckets@;
            let mut bucket = match buckets.remove(&h) {
                Some(b) => b,
                None => Vec::new(),
            };
            let ghost old_b = bucket@;
            bucket.push(i as u32);
            buckets.insert(h, bucket);
            proof {
                let t0 = t.subrange(0, i as int);
                let t1 = t.subrange(0, i + 1);
                let m = buckets@;
                assert(t[i as int] == tokens@[i as int]@);
                assert(fnv1a(t1[i as int]) == h);
                assert forall|g: u64, k: int|
                    #![trigger m[g]@[k]]
                    m.contains_key(g) && 0 <= k < m[g]@.len() implies m[g]@[k] < t1.len()
                        && fnv1a(t1[m[g]@[k] as int]) == g by {
                    if g == h {
                        if k < old_b.len() {
                            assert(old_m.contains_key(h) && old_m[h]@ == old_b);
                            assert(old_m[g]@[k] < t0.len());
                            assert(t1[m[g]@[k] as int] == t0[old_m[g]@[k] as int]);
                        }
                    } else {
                        assert(old_m[g]@[k] < t0.len());
                        assert(t1[m[g]@[k] as int] == t0[old_m[g]@[k] as int]);
                    }
                }
                assert forall|g: u64, k1: int, k2: int|
                    #![trigger m[g]@[k1], m[g]@[k2]]
                    m.contains_key(g) && 0 <= k1 < k2 < m[g]@.len() implies m[g]@[k1]
                        < m[g]@[k2] by {
                    if g == h {
                        if k2 == old_b.len() {
                            assert(old_m.contains_key(h) && old_m[h]@ == old_b);
                            assert(old_m[g]@[k1] < t0.len());
                        } else {
                            assert(old_m[h]@ == old_b);
                            assert(old_m[g]@[k1] < old_m[g]@[k2]);
                        }
                    } else {
                        assert(old_m[g]@[k1] < old_m[g]@[k2]);
                    }
                }
                assert forall|j: int|
                    #![trigger t1[j]]
                    0 <= j < t1.len() implies m.contains_key(fnv1a(t1[j])) && m[fnv1a(
                        t1[j],
                    )]@.contains(j as u32) by {
                    if j < i {
                        assert(t1[j] == t0[j]);
                        let g = fnv1a(t0[j]);
                        assert(old_m.contains_key(g) && old_m[g]@.contains(j as u32));
                        let k = choose|k: int| 0 <= k < old_m[g]@.len() && old_m[g]@[k] == j as u32;
                        if g == h {
                            assert(m[g]@[k] == j as u32);
                        } else {
                            assert(m[g] == old_m[g]);
                        }
                    } else {
                        assert(m[h]@[old_b.len() as int] == i as u32);
                    }
                }
            }
            i = i + 1;
        }
        assert(t.subrange(0, n as int) =~= t);
        TextIndex { tokens: copy, buckets }
    }

    /// The lowest id whose text is `text`, if any.
    pub fn get(&self, text: &[u8]) -> (res: Option<u32>)
        ensures
            res == first_id(self.texts(), text@),
            res matches Some(i) ==> is_first_index(self.texts(), text@, i as int),
            res is None ==> absent(self.texts(), text@),
    {
        proof {
            use_type_invariant(self);
            lemma_first_id(self.texts(), text@);
        }
        let ghost t = self.texts();
        let h = fnv1a_hash(text);
        match self.buckets.get(&h) {
            None => {
                assert forall|j: int| 0 <= j < t.len() implies t[j] != text@ by {
                    if t[j] == text@ {
                        assert(self.buckets@.contains_key(fnv1a(t[j])));
                    }
                }
                None
            },
            Some(bucket) => {
                let mut k: usize = 0;
                while k < bucket.len()
                    invariant
                        0 <= k <= bucket@.len(),
                        self.buckets@.contains_key(h),
                        self.buckets@[h] == *bucket,
                        h == fnv1a(text@),
                        t == self.texts(),
                        t.len() == self.tokens@.len(),
                        buckets_index(self.buckets@, t),
                        forall|k2: int| 0 <= k2 < k ==> t[#[trigger] bucket@[k2] as int] != text@,
                    decreases bucket@.len() - k,
                {
                    let id = bucket[k];
                    assert(bucket@[k as int] == self.buckets@[h]@[k as int]);
                    assert(id < t.len());
                    if bytes_eq(self.tokens[id as usize].as_slice(), text) {
                        proof {
                            assert(t[id as int] == self.tokens@[id as int]@);
                            assert forall|j: int| 0 <= j < id implies t[j] != text@ by {
                                if t[j] == text@ {
                                    assert(self.buckets@[h]@.contains(j as u32));
                                    let k2 = choose|k2: int|
                                        0 <= k2 < bucket@.len() && bucket@[k2] == j as u32;
                                    assert(bucket@[k2] == self.buckets@[h]@[k2]);
                                    if k2 >= k {
                                        if k2 > k {
                                            assert(self.buckets@[h]@[k as int] < self.buckets@[h]@[k2]);
                                        }
                                    }
                                }
                            }
                        }
                        assert(is_first_index(t, text@, id as int));
                        return Some(id);
                    }
                    assert(t[id as int] == self.tokens@[id as int]@);
                    k = k + 1;
                }
                assert forall|j: int| 0 <= j < t.len() implies t[j] != text@ by {
                    if t[j] == text@ {
                        assert(self.buckets@[h]@.contains(j as u32));
                        let k2 = choose|k2: int| 0 <= k2 < bucket@.len() && bucket@[k2] == j as u32;
                    }
                }
                None
            },
        }
    }
}

} // verus!
