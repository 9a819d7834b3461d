//! Minimal GGUF (v3) metadata reader.
//!
//! Only reads what the vocab extraction needs: the KV section's tokenizer
//! arrays and the scalar special-token ids. Tensor headers and the data blob
//! are never looked at, so a reader only needs the file's leading bytes.
//!
//! Layout:
//!   magic  u32   "GGUF"
//!   version u32
//!   n_tensors i64
//!   n_kv i64
//!   <n_kv> KV pairs   { name: string, type: i32, value }
//!   <n_tensors> tensor headers (not read)
//!   data blob (not read)
//!
//! All integers are little-endian; a string is a `u64` byte length followed by
//! the bytes.
use vstd::prelude::*;
use vstd::slice::*;
use vstd::string::*;
use crate::index::TextIndex;
use crate::textutil::{append_bytes, byte_strings, bytes_eq, decimal, lossy_string, push_decimal, utf8_lossy};

verus! {

/// A GGUF read error, carrying its message.
#[derive(Debug)]
pub struct GgufError(pub String);

/// The ways reading GGUF metadata can fail.
#[derive(Clone, Copy, PartialEq, Eq, Debug)]
pub enum GgufFault {
    /// The input ended before a value was complete.
    Eof,
    /// The first four bytes are not `GGUF`.
    BadMagic,
    /// `tokenizer.ggml.tokens` does not hold strings.
    TokensNotStrings,
    /// `tokenizer.ggml.merges` does not hold strings.
    MergesNotStrings,
    /// A value type outside the GGUF type table.
    UnknownType,
}

/// The message a `GgufError` carries for each fault.
pub open spec fn fault_message(f: GgufFault) -> Seq<char> {
    match f {
        GgufFault::Eof => "unexpected end of file"@,
        GgufFault::BadMagic => "bad magic"@,
        GgufFault::TokensNotStrings => "tokenizer.ggml.tokens is not an array of strings"@,
        GgufFault::MergesNotStrings => "tokenizer.ggml.merges is not an array of strings"@,
        GgufFault::UnknownType => "unknown gguf type"@,
    }
}

/// Build the error for a fault.
pub fn err(f: GgufFault) -> (e: GgufError)
    ensures
        e.0@ == fault_message(f),
{
    let msg = match f {
        GgufFault::Eof => String::from_str("unexpected end of file"),
        GgufFault::BadMagic => String::from_str("bad magic"),
        GgufFault::TokensNotStrings => String::from_str("tokenizer.ggml.tokens is not an array of strings"),
        GgufFault::MergesNotStrings => String::from_str("tokenizer.ggml.merges is not an array of strings"),
        GgufFault::UnknownType => String::from_str("unknown gguf type"),
    };
    GgufError(msg)
}

impl GgufError {
    /// The error as displayed: its message after a `gguf: ` prefix.
    pub fn to_string(&self) -> (s: String)
        ensures
            s@ == "gguf: "@ + self.0@,
    {
        let mut s = String::from_str("gguf: ");
        s.append(self.0.as_str());
        s
    }
}

impl GgufFault {
    /// Whether this is the fault of an input cut short.
    pub fn is_eof(&self) -> (res: bool)
        ensures
            res == (*self == GgufFault::Eof),
    {
        match self {
            GgufFault::Eof => true,
            _ => false,
        }
    }
}

// ---------------------------------------------------------------------------
// The format, as spec functions over the input bytes.
// ---------------------------------------------------------------------------

/// Little-endian `u32` at `p`.
pub open spec fn le_u32(b: Seq<u8>, p: int) -> u32 {
    (b[p] as int + b[p + 1] as int * 0x100 + b[p + 2] as int * 0x10000 + b[p + 3] as int
        * 0x1000000) as u32
}

/// Little-endian `u64` at `p`.
pub open spec fn le_u64(b: Seq<u8>, p: int) -> u64 {
    (le_u32(b, p) as int + le_u32(b, p + 4) as int * 0x1_0000_0000) as u64
}

/// Skip `n` bytes at `p`.
pub open spec fn read_take(b: Seq<u8>, p: int, n: int) -> Result<int, GgufFault> {
    if p + n <= b.len() {
        Ok(p + n)
    } else {
        Err(GgufFault::Eof)
    }
}

pub open spec fn read_u8(b: Seq<u8>, p: int) -> Result<(u8, int), GgufFault> {
    if p + 1 <= b.len() {
        Ok((b[p], p + 1))
    } else {
        Err(GgufFault::Eof)
    }
}

pub open spec fn read_u32(b: Seq<u8>, p: int) -> Result<(u32, int), GgufFault> {
    if p + 4 <= b.len() {
        Ok((le_u32(b, p), p + 4))
    } else {
        Err(GgufFault::Eof)
    }
}

pub open spec fn read_i32(b: Seq<u8>, p: int) -> Result<(i32, int), GgufFault> {
    match read_u32(b, p) {
        Ok((x, q)) => Ok((x as i32, q)),
        Err(f) => Err(f),
    }
}

pub open spec fn read_u64(b: Seq<u8>, p: int) -> Result<(u64, int), GgufFault> {
    if p + 8 <= b.len() {
        Ok((le_u64(b, p), p + 8))
    } else {
        Err(GgufFault::Eof)
    }
}

pub open spec fn read_i64(b: Seq<u8>, p: int) -> Result<(i64, int), GgufFault> {
    match read_u64(b, p) {
        Ok((x, q)) => Ok((x as i64, q)),
        Err(f) => Err(f),
    }
}

/// A GGUF string: a `u64` length, then that many bytes.
pub open spec fn read_bytes(b: Seq<u8>, p: int) -> Result<(Seq<u8>, int), GgufFault> {
    match read_u64(b, p) {
        Ok((len, q)) => {
            let n = len as usize as int;
            if q + n <= b.len() {
                Ok((b.subrange(q, q + n), q + n))
            } else {
                Err(GgufFault::Eof)
            }
        },
        Err(f) => Err(f),
    }
}

/// `n` GGUF strings in a row.
pub open spec fn read_bytes_array(b: Seq<u8>, p: int, n: nat) -> Result<
    (Seq<Seq<u8>>, int),
    GgufFault,
>
    decreases n,
{
    if n == 0 {
        Ok((seq![], p))
    } else {
        match read_bytes_array(b, p, (n - 1) as nat) {
            Ok((xs, q)) => match read_bytes(b, q) {
                Ok((x, r)) => Ok((xs.push(x), r)),
                Err(f) => Err(f),
            },
            Err(f) => Err(f),
        }
    }
}

/// `n` little-endian `u32` values in a row.
pub open spec fn read_u32_array(b: Seq<u8>, p: int, n: nat) -> Result<(Seq<u32>, int), GgufFault>
    decreases n,
{
    if n == 0 {
        Ok((seq![], p))
    } else {
        match read_u32_array(b, p, (n - 1) as nat) {
            Ok((xs, q)) => match read_u32(b, q) {
                Ok((x, r)) => Ok((xs.push(x), r)),
                Err(f) => Err(f),
            },
            Err(f) => Err(f),
        }
    }
}

/// Index of the first space in `s` at or after `i`.
pub open spec fn first_space_from(s: Seq<u8>, i: int) -> Option<int>
    decreases s.len() - i,
{
    if i < 0 || i >= s.len() {
        None
    } else if s[i] == 32 {
        Some(i)
    } else {
        first_space_from(s, i + 1)
    }
}

/// A merge string "left right" split at its first space; a string whose
/// first space is at index 0, or that has none, is kept whole with an empty
/// right side.
pub open spec fn split_merge(s: Seq<u8>) -> (Seq<u8>, Seq<u8>) {
    match first_space_from(s, 0) {
        Some(p) => if p >= 1 {
            (s.subrange(0, p), s.subrange(p + 1, s.len() as int))
        } else {
            (s, seq![])
        },
        None => (s, seq![]),
    }
}

/// `n` merge strings in a row, each split.
pub open spec fn read_merge_array(b: Seq<u8>, p: int, n: nat) -> Result<
    (Seq<(Seq<u8>, Seq<u8>)>, int),
    GgufFault,
>
    decreases n,
{
    if n == 0 {
        Ok((seq![], p))
    } else {
        match read_merge_array(b, p, (n - 1) as nat) {
            Ok((xs, q)) => match read_bytes(b, q) {
                Ok((x, r)) => Ok((xs.push(split_merge(x)), r)),
                Err(f) => Err(f),
            },
            Err(f) => Err(f),
        }
    }
}

/// Bytes per element of a GGUF array of element type `elem` (strings aside).
pub open spec fn stride_of(elem: i32) -> int {
    if elem == 0 || elem == 1 || elem == 7 {
        1
    } else if elem == 2 || elem == 3 {
        2
    } else if elem == 4 || elem == 5 || elem == 6 {
        4
    } else if elem == 10 || elem == 11 || elem == 12 {
        8
    } else {
        4
    }
}

/// Skip `n` array elements of type `elem`.
pub open spec fn skip_elems(b: Seq<u8>, p: int, n: nat, elem: i32) -> Result<int, GgufFault>
    decreases n,
{
    if n == 0 {
        Ok(p)
    } else {
        match skip_elems(b, p, (n - 1) as nat, elem) {
            Ok(q) => if elem == 8 {
                match read_bytes(b, q) {
                    Ok((_, r)) => Ok(r),
                    Err(f) => Err(f),
                }
            } else {
                read_take(b, q, stride_of(elem))
            },
            Err(f) => Err(f),
        }
    }
}

/// Skip one value of GGUF type `ty`.
pub open spec fn skip_value(b: Seq<u8>, p: int, ty: i32) -> Result<int, GgufFault> {
    if ty == 0 || ty == 1 || ty == 7 {
        read_take(b, p, 1)
    } else if ty == 2 || ty == 3 {
        read_take(b, p, 2)
    } else if ty == 4 || ty == 5 || ty == 6 {
        read_take(b, p, 4)
    } else if ty == 8 {
        match read_bytes(b, p) {
            Ok((_, q)) => Ok(q),
            Err(f) => Err(f),
        }
    } else if ty == 9 {
        match read_i32(b, p) {
            Ok((elem, q)) => match read_u64(b, q) {
                Ok((n, r)) => skip_elems(b, r, n as usize as nat, elem),
                Err(f) => Err(f),
            },
            Err(f) => Err(f),
        }
    } else if ty == 10 || ty == 11 || ty == 12 {
        read_take(b, p, 8)
    } else {
        Err(GgufFault::UnknownType)
    }
}

/// The tokenizer-relevant metadata, as mathematical values.
pub struct VocabView {
    pub model: Seq<char>,
    pub pre: Seq<char>,
    pub tokens: Seq<Seq<u8>>,
    pub merges: Seq<(Seq<u8>, Seq<u8>)>,
    pub token_types: Seq<u32>,
    pub score_bits: Seq<u32>,
    pub bos_id: Option<u32>,
    pub eos_id: Option<u32>,
    pub pad_id: Option<u32>,
    pub unknown_id: Option<u32>,
    pub add_bos: bool,
}

/// The metadata before any key has been read.
pub open spec fn empty_vocab_view() -> VocabView {
    VocabView {
        model: seq![],
        pre: seq![],
        tokens: seq![],
        merges: seq![],
        token_types: seq![],
        score_bits: seq![],
        bos_id: None,
        eos_id: None,
        pad_id: None,
        unknown_id: None,
        add_bos: false,
    }
}

pub open spec fn key_model() -> Seq<u8> { "tokenizer.ggml.model".spec_bytes() }
pub open spec fn key_pre() -> Seq<u8> { "tokenizer.ggml.pre".spec_bytes() }
pub open spec fn key_add_bos() -> Seq<u8> { "tokenizer.ggml.add_bos_token".spec_bytes() }
pub open spec fn key_bos() -> Seq<u8> { "tokenizer.ggml.bos_token_id".spec_bytes() }
pub open spec fn key_eos() -> Seq<u8> { "tokenizer.ggml.eos_token_id".spec_bytes() }
pub open spec fn key_pad() -> Seq<u8> { "tokenizer.ggml.padding_token_id".spec_bytes() }
pub open spec fn key_unknown() -> Seq<u8> { "tokenizer.ggml.unknown_token_id".spec_bytes() }
pub open spec fn key_tokens() -> Seq<u8> { "tokenizer.ggml.tokens".spec_bytes() }
pub open spec fn key_token_type() -> Seq<u8> { "tokenizer.ggml.token_type".spec_bytes() }
pub open spec fn key_scores() -> Seq<u8> { "tokenizer.ggml.scores".spec_bytes() }
pub open spec fn key_merges() -> Seq<u8> { "tokenizer.ggml.merges".spec_bytes() }

/// A string value, decoded lossily.
pub open spec fn kv_text(b: Seq<u8>, p: int) -> Result<(Seq<char>, int), GgufFault> {
    match read_bytes(b, p) {
        Ok((s, q)) => Ok((utf8_lossy(s), q)),
        Err(f) => Err(f),
    }
}

/// An array value of strings: element type (which must be 8, else `fault`),
/// count, then the strings.
pub open spec fn kv_string_list(b: Seq<u8>, p: int, fault: GgufFault) -> Result<
    (Seq<Seq<u8>>, int),
    GgufFault,
> {
    match read_i32(b, p) {
        Ok((elem, q)) => if elem != 8 {
            Err(fault)
        } else {
            match read_u64(b, q) {
                Ok((n, r)) => read_bytes_array(b, r, n as usize as nat),
                Err(f) => Err(f),
            }
        },
        Err(f) => Err(f),
    }
}

/// The merge array value: element type (which must be 8), count, then the
/// merge strings, each split.
pub open spec fn kv_merge_list(b: Seq<u8>, p: int) -> Result<
    (Seq<(Seq<u8>, Seq<u8>)>, int),
    GgufFault,
> {
    match read_i32(b, p) {
        Ok((elem, q)) => if elem != 8 {
            Err(GgufFault::MergesNotStrings)
        } else {
            match read_u64(b, q) {
                Ok((n, r)) => read_merge_array(b, r, n as usize as nat),
                Err(f) => Err(f),
            }
        },
        Err(f) => Err(f),
    }
}

/// An array value read as 32-bit words: element type (ignored), count, then
/// the words.
pub open spec fn kv_u32_list(b: Seq<u8>, p: int) -> Result<(Seq<u32>, int), GgufFault> {
    match read_i32(b, p) {
        Ok((_, q)) => match read_u64(b, q) {
            Ok((n, r)) => read_u32_array(b, r, n as usize as nat),
            Err(f) => Err(f),
        },
        Err(f) => Err(f),
    }
}

/// Read the value of the KV pair named `key` (of GGUF type `ty`) at `p`,
/// recording it in `v` when the key is one of the tokenizer keys.
///
/// Keys are compared as raw bytes; a key that is not valid UTF-8 can never
/// equal one of the (ASCII) tokenizer keys, so this is the same as comparing
/// the lossily decoded key.
#[verifier::opaque]
pub open spec fn kv_apply(b: Seq<u8>, p: int, key: Seq<u8>, ty: i32, v: VocabView) -> Result<
    (VocabView, int),
    GgufFault,
> {
    if key == key_model() {
        match kv_text(b, p) {
            Ok((s, q)) => Ok((VocabView { model: s, ..v }, q)),
            Err(f) => Err(f),
        }
    } else if key == key_pre() {
        match kv_text(b, p) {
            Ok((s, q)) => Ok((VocabView { pre: s, ..v }, q)),
            Err(f) => Err(f),
        }
    } else if key == key_add_bos() {
        match read_u8(b, p) {
            Ok((x, q)) => Ok((VocabView { add_bos: x != 0, ..v }, q)),
            Err(f) => Err(f),
        }
    } else if key == key_bos() {
        match read_u32(b, p) {
            Ok((x, q)) => Ok((VocabView { bos_id: Some(x), ..v }, q)),
            Err(f) => Err(f),
        }
    } else if key == key_eos() {
        match read_u32(b, p) {
            Ok((x, q)) => Ok((VocabView { eos_id: Some(x), ..v }, q)),
            Err(f) => Err(f),
        }
    } else if key == key_pad() {
        match read_u32(b, p) {
            Ok((x, q)) => Ok((VocabView { pad_id: Some(x), ..v }, q)),
            Err(f) => Err(f),
        }
    } else if key == key_unknown() {
        match read_u32(b, p) {
            Ok((x, q)) => Ok((VocabView { unknown_id: Some(x), ..v }, q)),
            Err(f) => Err(f),
        }
    } else if key == key_tokens() {
        match kv_string_list(b, p, GgufFault::TokensNotStrings) {
            Ok((xs, q)) => Ok((VocabView { tokens: xs, ..v }, q)),
            Err(f) => Err(f),
        }
    } else if key == key_token_type() {
        match kv_u32_list(b, p) {
            Ok((xs, q)) => Ok((VocabView { token_types: xs, ..v }, q)),
            Err(f) => Err(f),
        }
    } else if key == key_scores() {
        match kv_u32_list(b, p) {
            Ok((xs, q)) => Ok((VocabView { score_bits: xs, ..v }, q)),
            Err(f) => Err(f),
        }
    } else if key == key_merges() {
        match kv_merge_list(b, p) {
            Ok((xs, q)) => Ok((VocabView { merges: xs, ..v }, q)),
            Err(f) => Err(f),
        }
    } else {
        match skip_value(b, p, ty) {
            Ok(q) => Ok((v, q)),
            Err(f) => Err(f),
        }
    }
}

/// One KV pair: name, type, value.
pub open spec fn read_kv(b: Seq<u8>, p: int, v: VocabView) -> Result<(VocabView, int), GgufFault> {
    match read_bytes(b, p) {
        Ok((key, q)) => match read_i32(b, q) {
            Ok((ty, r)) => kv_apply(b, r, key, ty, v),
            Err(f) => Err(f),
        },
        Err(f) => Err(f),
    }
}

/// `n` KV pairs in a row.
pub open spec fn read_kvs(b: Seq<u8>, p: int, n: nat, v: VocabView) -> Result<
    (VocabView, int),
    GgufFault,
>
    decreases n,
{
    if n == 0 {
        Ok((v, p))
    } else {
        match read_kvs(b, p, (n - 1) as nat, v) {
            Ok((w, q)) => read_kv(b, q, w),
            Err(f) => Err(f),
        }
    }
}

/// The name given to the `i`-th token when its stored text is empty.
pub open spec fn empty_token_name(i: nat) -> Seq<u8> {
    "[EMPTY_".spec_bytes() + decimal(i) + "]".spec_bytes()
}

/// Every empty token text replaced by its `[EMPTY_i]` name.
pub open spec fn name_empty_tokens(tokens: Seq<Seq<u8>>) -> Seq<Seq<u8>> {
    Seq::new(
        tokens.len(),
        |i: int|
            if tokens[i].len() == 0 {
                empty_token_name(i as nat)
            } else {
                tokens[i]
            },
    )
}

/// The number of KV pairs a header count `n_kv` announces.
pub open spec fn kv_count(n_kv: i64) -> nat {
    if n_kv > 0 {
        n_kv as nat
    } else {
        0
    }
}

/// The metadata once all KV pairs are read: empty token texts get names.
pub open spec fn finish_vocab(r: Result<(VocabView, int), GgufFault>) -> Result<VocabView, GgufFault> {
    match r {
        Ok((v, _)) => Ok(VocabView { tokens: name_empty_tokens(v.tokens), ..v }),
        Err(f) => Err(f),
    }
}

/// The tokenizer metadata of a GGUF file whose leading bytes are `b`.
pub open spec fn spec_parse_gguf(b: Seq<u8>) -> Result<VocabView, GgufFault> {
    if b.len() < 4 {
        Err(GgufFault::Eof)
    } else if b.subrange(0, 4) != "GGUF".spec_bytes() {
        Err(GgufFault::BadMagic)
    } else {
        match read_u32(b, 4) {
            Ok((_, p1)) => match read_i64(b, p1) {
                Ok((_, p2)) => match read_i64(b, p2) {
                    Ok((n_kv, p3)) => finish_vocab(
                        read_kvs(b, p3, kv_count(n_kv), empty_vocab_view()),
                    ),
                    Err(f) => Err(f),
                },
                Err(f) => Err(f),
            },
            Err(f) => Err(f),
        }
    }
}


// ---------------------------------------------------------------------------
// The parsed vocabulary.
// ---------------------------------------------------------------------------

/// The byte-string pairs held by a list of pairs of byte vectors.
pub open spec fn byte_string_pairs(v: Seq<(Vec<u8>, Vec<u8>)>) -> Seq<(Seq<u8>, Seq<u8>)> {
    v.map_values(|m: (Vec<u8>, Vec<u8>)| (m.0@, m.1@))
}

/// The tokenizer-relevant subset of a GGUF model's metadata.
#[derive(Debug, Clone)]
pub struct Vocab {
    /// `tokenizer.ggml.model` ("gpt2" for Bonsai).
    pub model: String,
    /// `tokenizer.ggml.pre` ("qwen35" for Bonsai).
    pub pre: String,
    /// `tokenizer.ggml.tokens` — raw token byte strings.
    pub tokens: Vec<Vec<u8>>,
    /// `tokenizer.ggml.merges` — "left right" pairs, in rank order.
    pub merges: Vec<(Vec<u8>, Vec<u8>)>,
    /// `tokenizer.ggml.token_type` — GGUF token types (not GT enum).
    pub token_types: Vec<u32>,
    /// `tokenizer.ggml.scores` — the IEEE-754 bits of each `f32` score;
    /// empty when the key is absent.
    pub score_bits: Vec<u32>,
    /// Special token ids.
    pub bos_id: Option<u32>,
    pub eos_id: Option<u32>,
    pub pad_id: Option<u32>,
    pub unknown_id: Option<u32>,
    /// `tokenizer.ggml.add_bos_token`.
    pub add_bos: bool,
}

impl View for Vocab {
    type V = VocabView;

    open spec fn view(&self) -> VocabView {
        VocabView {
            model: self.model@,
            pre: self.pre@,
            tokens: byte_strings(self.tokens@),
            merges: byte_string_pairs(self.merges@),
            token_types: self.token_types@,
            score_bits: self.score_bits@,
            bos_id: self.bos_id,
            eos_id: self.eos_id,
            pad_id: self.pad_id,
            unknown_id: self.unknown_id,
            add_bos: self.add_bos,
        }
    }
}

impl Vocab {
    /// The vocabulary before any key has been read.
    pub fn empty() -> (v: Vocab)
        ensures
            v@ == empty_vocab_view(),
    {
        let v = Vocab {
            model: String::new(),
            pre: String::new(),
            tokens: Vec::new(),
            merges: Vec::new(),
            token_types: Vec::new(),
            score_bits: Vec::new(),
            bos_id: None,
            eos_id: None,
            pad_id: None,
            unknown_id: None,
            add_bos: false,
        };
        assert(v@.tokens =~= seq![]);
        assert(v@.merges =~= seq![]);
        v
    }
}

// ---------------------------------------------------------------------------
// The reader.
// ---------------------------------------------------------------------------

/// A cursor over the input bytes.
struct Reader<'a> {
    buf: &'a [u8],
    pos: usize,
}

impl<'a> Reader<'a> {
    spec fn wf(&self) -> bool {
        self.pos <= self.buf@.len()
    }

    fn new(buf: &'a [u8]) -> (r: Self)
        ensures
            r.buf@ == buf@,
            r.pos == 0,
            r.wf(),
    {
        Reader { buf, pos: 0 }
    }

    /// Fail with `Eof` unless `n` more bytes are available.
    fn ensure(&self, n: usize) -> (res: Result<(), GgufFault>)
        requires
            self.wf(),
        ensures
            res is Ok <==> self.pos + n <= self.buf@.len(),
            res matches Err(f) ==> f == GgufFault::Eof,
    {
        if n > self.buf.len() - self.pos {
            Err(GgufFault::Eof)
        } else {
            Ok(())
        }
    }

    fn take(&mut self, n: usize) -> (res: Result<&'a [u8], GgufFault>)
        requires
            old(self).wf(),
        ensures
            final(self).wf(),
            final(self).buf == old(self).buf,
            res is Err ==> final(self).pos == old(self).pos,
            match read_take(old(self).buf@, old(self).pos as int, n as int) {
                Ok(q) => res matches Ok(s) && s@ == old(self).buf@.subrange(
                    old(self).pos as int,
                    q,
                ) && final(self).pos == q,
                Err(f) => res matches Err(g) && g == f,
            },
    {
        let len = self.buf.len();
        if let Err(f) = self.ensure(n) {
            return Err(f);
        }
        assert(self.pos + n <= len);
        let s = slice_subrange(self.buf, self.pos, self.pos + n);
        self.pos = self.pos + n;
        Ok(s)
    }

    fn u8(&mut self) -> (res: Result<u8, GgufFault>)
        requires
            old(self).wf(),
        ensures
            final(self).wf(),
            final(self).buf == old(self).buf,
            res is Err ==> final(self).pos == old(self).pos,
            match read_u8(old(self).buf@, old(self).pos as int) {
                Ok((x, q)) => res == Ok::<u8, GgufFault>(x) && final(self).pos == q,
                Err(f) => res == Err::<u8, GgufFault>(f),
            },
    {
        let s = self.take(1)?;
        Ok(s[0])
    }

    fn u32(&mut self) -> (res: Result<u32, GgufFault>)
        requires
            old(self).wf(),
        ensures
            final(self).wf(),
            final(self).buf == old(self).buf,
            res is Err ==> final(self).pos == old(self).pos,
            match read_u32(old(self).buf@, old(self).pos as int) {
                Ok((x, q)) => res == Ok::<u32, GgufFault>(x) && final(self).pos == q,
                Err(f) => res == Err::<u32, GgufFault>(f),
            },
    {
        let ghost b = self.buf@;
        let ghost p = self.pos as int;
        let s = self.take(4)?;
        assert(s@[0] == b[p] && s@[1] == b[p + 1] && s@[2] == b[p + 2] && s@[3] == b[p + 3]);
        Ok(s[0] as u32 + (s[1] as u32) * 0x100 + (s[2] as u32) * 0x10000 + (s[3] as u32) * 0x1000000)
    }

    fn i32(&mut self) -> (res: Result<i32, GgufFault>)
        requires
            old(self).wf(),
        ensures
            final(self).wf(),
            final(self).buf == old(self).buf,
            res is Err ==> final(self).pos == old(self).pos,
            match read_i32(old(self).buf@, old(self).pos as int) {
                Ok((x, q)) => res == Ok::<i32, GgufFault>(x) && final(self).pos == q,
                Err(f) => res == Err::<i32, GgufFault>(f),
            },
    {
        let x = self.u32()?;
        Ok(x as i32)
    }

    fn u64(&mut self) -> (res: Result<u64, GgufFault>)
        requires
            old(self).wf(),
        ensures
            final(self).wf(),
            final(self).buf == old(self).buf,
            res is Err ==> final(self).pos == old(self).pos,
            match read_u64(old(self).buf@, old(self).pos as int) {
                Ok((x, q)) => res == Ok::<u64, GgufFault>(x) && final(self).pos == q,
                Err(f) => res == Err::<u64, GgufFault>(f),
            },
    {
        let ghost b = self.buf@;
        let ghost p = self.pos as int;
        if let Err(f) = self.ensure(8) {
            return Err(f);
        }
        let lo = self.u32()?;
        let hi = self.u32()?;
        assert(lo == le_u32(b, p) && hi == le_u32(b, p + 4));
        Ok(lo as u64 + (hi as u64) * 0x1_0000_0000)
    }

    fn i64(&mut self) -> (res: Result<i64, GgufFault>)
        requires
            old(self).wf(),
        ensures
            final(self).wf(),
            final(self).buf == old(self).buf,
            res is Err ==> final(self).pos == old(self).pos,
            match read_i64(old(self).buf@, old(self).pos as int) {
                Ok((x, q)) => res == Ok::<i64, GgufFault>(x) && final(self).pos == q,
                Err(f) => res == Err::<i64, GgufFault>(f),
            },
    {
        let x = self.u64()?;
        Ok(x as i64)
    }

    /// The IEEE-754 bits of a little-endian `f32`.
    fn f32_bits(&mut self) -> (res: Result<u32, GgufFault>)
        requires
            old(self).wf(),
        ensures
            final(self).wf(),
            final(self).buf == old(self).buf,
            res is Err ==> final(self).pos == old(self).pos,
            match read_u32(old(self).buf@, old(self).pos as int) {
                Ok((x, q)) => res == Ok::<u32, GgufFault>(x) && final(self).pos == q,
                Err(f) => res == Err::<u32, GgufFault>(f),
            },
    {
        self.u32()
    }

    /// A GGUF string, borrowed from the input.
    fn bytes(&mut self) -> (res: Result<&'a [u8], GgufFault>)
        requires
            old(self).wf(),
        ensures
            final(self).wf(),
            final(self).buf == old(self).buf,
            match read_bytes(old(self).buf@, old(self).pos as int) {
                Ok((s, q)) => res matches Ok(x) && x@ == s && final(self).pos == q,
                Err(f) => res matches Err(g) && g == f,
            },
    {
        let len = self.u64()?;
        self.take(len as usize)
    }

    /// A GGUF string decoded lossily as UTF-8.
    fn string(&mut self) -> (res: Result<String, GgufFault>)
        requires
            old(self).wf(),
        ensures
            final(self).wf(),
            final(self).buf == old(self).buf,
            match read_bytes(old(self).buf@, old(self).pos as int) {
                Ok((s, q)) => res matches Ok(x) && x@ == utf8_lossy(s) && final(self).pos == q,
                Err(f) => res matches Err(g) && g == f,
            },
    {
        let bytes = self.bytes()?;
        Ok(lossy_string(bytes))
    }

    /// A GGUF string as raw bytes (no UTF-8 validation), for token texts.
    fn raw_string(&mut self) -> (res: Result<Vec<u8>, GgufFault>)
        requires
            old(self).wf(),
        ensures
            final(self).wf(),
            final(self).buf == old(self).buf,
            match read_bytes(old(self).buf@, old(self).pos as int) {
                Ok((s, q)) => res matches Ok(x) && x@ == s && final(self).pos == q,
                Err(f) => res matches Err(g) && g == f,
            },
    {
        let bytes = self.bytes()?;
        Ok(slice_to_vec(bytes))
    }
}


// ---------------------------------------------------------------------------
// Once a run of reads fails, every longer run fails the same way.
// ---------------------------------------------------------------------------

proof fn lemma_bytes_array_err(b: Seq<u8>, p: int, k: nat, n: nat)
    requires
        k <= n,
        read_bytes_array(b, p, k) is Err,
    ensures
        read_bytes_array(b, p, n) == read_bytes_array(b, p, k),
    decreases n,
{
    if k < n {
        lemma_bytes_array_err(b, p, k, (n - 1) as nat);
    }
}

proof fn lemma_u32_array_err(b: Seq<u8>, p: int, k: nat, n: nat)
    requires
        k <= n,
        read_u32_array(b, p, k) is Err,
    ensures
        read_u32_array(b, p, n) == read_u32_array(b, p, k),
    decreases n,
{
    if k < n {
        lemma_u32_array_err(b, p, k, (n - 1) as nat);
    }
}

proof fn lemma_merge_array_err(b: Seq<u8>, p: int, k: nat, n: nat)
    requires
        k <= n,
        read_merge_array(b, p, k) is Err,
    ensures
        read_merge_array(b, p, n) == read_merge_array(b, p, k),
    decreases n,
{
    if k < n {
        lemma_merge_array_err(b, p, k, (n - 1) as nat);
    }
}

proof fn lemma_skip_elems_err(b: Seq<u8>, p: int, k: nat, n: nat, elem: i32)
    requires
        k <= n,
        skip_elems(b, p, k, elem) is Err,
    ensures
        skip_elems(b, p, n, elem) == skip_elems(b, p, k, elem),
    decreases n,
{
    if k < n {
        lemma_skip_elems_err(b, p, k, (n - 1) as nat, elem);
    }
}

proof fn lemma_kvs_err(b: Seq<u8>, p: int, k: nat, n: nat, v: VocabView)
    requires
        k <= n,
        read_kvs(b, p, k, v) is Err,
    ensures
        read_kvs(b, p, n, v) == read_kvs(b, p, k, v),
    decreases n,
{
    if k < n {
        lemma_kvs_err(b, p, k, (n - 1) as nat, v);
    }
}

// ---------------------------------------------------------------------------
// Arrays, merges and skipped values.
// ---------------------------------------------------------------------------

fn read_bytes_array_exec(r: &mut Reader, n: usize) -> (res: Result<Vec<Vec<u8>>, GgufFault>)
    requires
        old(r).wf(),
    ensures
        final(r).wf(),
        final(r).buf == old(r).buf,
        match read_bytes_array(old(r).buf@, old(r).pos as int, n as nat) {
            Ok((xs, q)) => res matches Ok(v) && byte_strings(v@) == xs && final(r).pos == q,
            Err(f) => res matches Err(g) && g == f,
        },
{
    let ghost b = r.buf@;
    let ghost p0 = r.pos as int;
    let ghost buf0 = r.buf;
    let mut out: Vec<Vec<u8>> = Vec::new();
    let mut i: usize = 0;
    assert(byte_strings(out@) =~= seq![]);
    while i < n
        invariant
            r.wf(),
            r.buf == buf0,
            b == buf0@,
            buf0 == old(r).buf,
            p0 == old(r).pos,
            0 <= i <= n,
            read_bytes_array(b, p0, i as nat) == Ok::<(Seq<Seq<u8>>, int), GgufFault>(
                (byte_strings(out@), r.pos as int),
            ),
        decreases n - i,
    {
        match r.raw_string() {
            Ok(x) => {
                let ghost before = out@;
                out.push(x);
                assert(byte_strings(out@) =~= byte_strings(before).push(x@));
                i = i + 1;
            },
            Err(f) => {
                proof {
                    lemma_bytes_array_err(b, p0, (i + 1) as nat, n as nat);
                }
                return Err(f);
            },
        }
    }
    Ok(out)
}

fn read_u32_array_exec(r: &mut Reader, n: usize) -> (res: Result<Vec<u32>, GgufFault>)
    requires
        old(r).wf(),
    ensures
        final(r).wf(),
        final(r).buf == old(r).buf,
        match read_u32_array(old(r).buf@, old(r).pos as int, n as nat) {
            Ok((xs, q)) => res matches Ok(v) && v@ == xs && final(r).pos == q,
            Err(f) => res matches Err(g) && g == f,
        },
{
    let ghost b = r.buf@;
    let ghost p0 = r.pos as int;
    let ghost buf0 = r.buf;
    let mut out: Vec<u32> = Vec::new();
    let mut i: usize = 0;
    while i < n
        invariant
            r.wf(),
            r.buf == buf0,
            b == buf0@,
            buf0 == old(r).buf,
            p0 == old(r).pos,
            0 <= i <= n,
            read_u32_array(b, p0, i as nat) == Ok::<(Seq<u32>, int), GgufFault>(
                (out@, r.pos as int),
            ),
        decreases n - i,
    {
        match r.u32() {
            Ok(x) => {
                out.push(x);
                i = i + 1;
            },
            Err(f) => {
                proof {
                    lemma_u32_array_err(b, p0, (i + 1) as nat, n as nat);
                }
                return Err(f);
            },
        }
    }
    Ok(out)
}

/// Split a merge string at its first space (see `split_merge`).
fn split_merge_exec(s: Vec<u8>) -> (res: (Vec<u8>, Vec<u8>))
    ensures
        (res.0@, res.1@) == split_merge(s@),
{
    let mut i: usize = 0;
    while i < s.len() && s[i] != 32
        invariant
            0 <= i <= s@.len(),
            first_space_from(s@, 0) == first_space_from(s@, i as int),
        decreases s@.len() - i,
    {
        i = i + 1;
    }
    if i < s.len() && i >= 1 {
        let left = slice_to_vec(slice_subrange(s.as_slice(), 0, i));
        let right = slice_to_vec(slice_subrange(s.as_slice(), i + 1, s.len()));
        (left, right)
    } else {
        (s, Vec::new())
    }
}

fn read_merge_array_exec(r: &mut Reader, n: usize) -> (res: Result<
    Vec<(Vec<u8>, Vec<u8>)>,
    GgufFault,
>)
    requires
        old(r).wf(),
    ensures
        final(r).wf(),
        final(r).buf == old(r).buf,
        match read_merge_array(old(r).buf@, old(r).pos as int, n as nat) {
            Ok((xs, q)) => res matches Ok(v) && byte_string_pairs(v@) == xs && final(r).pos == q,
            Err(f) => res matches Err(g) && g == f,
        },
{
    let ghost b = r.buf@;
    let ghost p0 = r.pos as int;
    let ghost buf0 = r.buf;
    let mut out: Vec<(Vec<u8>, Vec<u8>)> = Vec::new();
    let mut i: usize = 0;
    assert(byte_string_pairs(out@) =~= seq![]);
    while i < n
        invariant
            r.wf(),
            r.buf == buf0,
            b == buf0@,
            buf0 == old(r).buf,
            p0 == old(r).pos,
            0 <= i <= n,
            read_merge_array(b, p0, i as nat) == Ok::<(Seq<(Seq<u8>, Seq<u8>)>, int), GgufFault>(
                (byte_string_pairs(out@), r.pos as int),
            ),
        decreases n - i,
    {
        match r.raw_string() {
            Ok(x) => {
                let ghost xv = x@;
                let ghost before = out@;
                let pair = split_merge_exec(x);
                out.push(pair);
                assert(byte_string_pairs(out@) =~= byte_string_pairs(before).push(split_merge(xv)));
                i = i + 1;
            },
            Err(f) => {
                proof {
                    lemma_merge_array_err(b, p0, (i + 1) as nat, n as nat);
                }
                return Err(f);
            },
        }
    }
    Ok(out)
}

/// Skip a single GGUF value of type `ty` (gguf_type int).
fn skip_gguf_value(r: &mut Reader, ty: i32) -> (res: Result<(), GgufFault>)
    requires
        old(r).wf(),
    ensures
        final(r).wf(),
        final(r).buf == old(r).buf,
        skip_value(old(r).buf@, old(r).pos as int, ty) == Err::<int, GgufFault>(GgufFault::UnknownType)
            ==> final(r).pos == old(r).pos,
        match skip_value(old(r).buf@, old(r).pos as int, ty) {
            Ok(q) => res is Ok && final(r).pos == q,
            Err(f) => res matches Err(g) && g == f,
        },
{
    if ty == 0 || ty == 1 || ty == 7 {
        r.take(1)?;
    } else if ty == 2 || ty == 3 {
        r.take(2)?;
    } else if ty == 4 || ty == 5 || ty == 6 {
        r.take(4)?;
    } else if ty == 8 {
        r.bytes()?;
    } else if ty == 9 {
        let elem = r.i32()?;
        let n = r.u64()? as usize;
        let stride: usize = if elem == 0 || elem == 1 || elem == 7 {
            1
        } else if elem == 2 || elem == 3 {
            2
        } else if elem == 4 || elem == 5 || elem == 6 {
            4
        } else if elem == 10 || elem == 11 || elem == 12 {
            8
        } else {
            4
        };
        let ghost b = r.buf@;
        let ghost p0 = r.pos as int;
        let ghost buf0 = r.buf;
        let mut i: usize = 0;
        while i < n
            invariant
                r.wf(),
                r.buf == buf0,
                b == buf0@,
                buf0 == old(r).buf,
                0 <= i <= n,
                stride == stride_of(elem),
                skip_value(b, old(r).pos as int, ty) == skip_elems(b, p0, n as nat, elem),
                skip_elems(b, p0, i as nat, elem) == Ok::<int, GgufFault>(r.pos as int),
            decreases n - i,
        {
            let step = if elem == 8 {
                match r.bytes() {
                    Ok(_) => Ok(()),
                    Err(f) => Err(f),
                }
            } else {
                match r.take(stride) {
                    Ok(_) => Ok(()),
                    Err(f) => Err(f),
                }
            };
            match step {
                Ok(()) => {
                    i = i + 1;
                },
                Err(f) => {
                    proof {
                        lemma_skip_elems_err(b, p0, (i + 1) as nat, n as nat, elem);
                    }
                    return Err(f);
                },
            }
        }
    } else if ty == 10 || ty == 11 || ty == 12 {
        r.take(8)?;
    } else {
        return Err(GgufFault::UnknownType);
    }
    Ok(())
}


// ---------------------------------------------------------------------------
// KV pairs and the whole header.
// ---------------------------------------------------------------------------

/// Read the value of one KV pair and record it in `v` (see `kv_apply`).
fn apply_kv(r: &mut Reader, key: &[u8], ty: i32, v: &mut Vocab) -> (res: Result<(), GgufFault>)
    requires
        old(r).wf(),
    ensures
        final(r).wf(),
        final(r).buf == old(r).buf,
        match kv_apply(old(r).buf@, old(r).pos as int, key@, ty, old(v)@) {
            Ok((w, q)) => res is Ok && final(v)@ == w && final(r).pos == q,
            Err(f) => res matches Err(g) && g == f,
        },
{
    reveal(kv_apply);
    if bytes_eq(key, "tokenizer.ggml.model".as_bytes()) {
        v.model = r.string()?;
    } else if bytes_eq(key, "tokenizer.ggml.pre".as_bytes()) {
        v.pre = r.string()?;
    } else if bytes_eq(key, "tokenizer.ggml.add_bos_token".as_bytes()) {
        v.add_bos = r.u8()? != 0;
    } else if bytes_eq(key, "tokenizer.ggml.bos_token_id".as_bytes()) {
        v.bos_id = Some(r.u32()?);
    } else if bytes_eq(key, "tokenizer.ggml.eos_token_id".as_bytes()) {
        v.eos_id = Some(r.u32()?);
    } else if bytes_eq(key, "tokenizer.ggml.padding_token_id".as_bytes()) {
        v.pad_id = Some(r.u32()?);
    } else if bytes_eq(key, "tokenizer.ggml.unknown_token_id".as_bytes()) {
        v.unknown_id = Some(r.u32()?);
    } else if bytes_eq(key, "tokenizer.ggml.tokens".as_bytes()) {
        let elem = r.i32()?;
        if elem != 8 {
            return Err(GgufFault::TokensNotStrings);
        }
        let n = r.u64()? as usize;
        v.tokens = read_bytes_array_exec(r, n)?;
    } else if bytes_eq(key, "tokenizer.ggml.token_type".as_bytes()) {
        let _elem = r.i32()?;
        let n = r.u64()? as usize;
        v.token_types = read_u32_array_exec(r, n)?;
    } else if bytes_eq(key, "tokenizer.ggml.scores".as_bytes()) {
        let _elem = r.i32()?;
        let n = r.u64()? as usize;
        v.score_bits = read_u32_array_exec(r, n)?;
    } else if bytes_eq(key, "tokenizer.ggml.merges".as_bytes()) {
        let elem = r.i32()?;
        if elem != 8 {
            return Err(GgufFault::MergesNotStrings);
        }
        let n = r.u64()? as usize;
        v.merges = read_merge_array_exec(r, n)?;
    } else {
        skip_gguf_value(r, ty)?;
    }
    Ok(())
}

/// Read one KV pair and record it in `v` (see `read_kv`).
fn read_kv_exec(r: &mut Reader, v: &mut Vocab) -> (res: Result<(), GgufFault>)
    requires
        old(r).wf(),
    ensures
        final(r).wf(),
        final(r).buf == old(r).buf,
        match read_kv(old(r).buf@, old(r).pos as int, old(v)@) {
            Ok((w, q)) => res is Ok && final(v)@ == w && final(r).pos == q,
            Err(f) => res matches Err(g) && g == f,
        },
{
    let key = r.bytes()?;
    let ty = r.i32()?;
    apply_kv(r, key, ty, v)
}

/// Replace every empty token text by its `[EMPTY_i]` name.
fn name_empty_tokens_exec(tokens: &mut Vec<Vec<u8>>)
    ensures
        byte_strings(final(tokens)@) == name_empty_tokens(byte_strings(old(tokens)@)),
{
    let ghost orig = byte_strings(tokens@);
    let n = tokens.len();
    let mut i: usize = 0;
    while i < n
        invariant
            0 <= i <= n,
            n == tokens@.len(),
            orig.len() == n,
            orig == byte_strings(old(tokens)@),
            forall|j: int|
                0 <= j < n ==> #[trigger] tokens@[j]@ == (if j < i {
                    name_empty_tokens(orig)[j]
                } else {
                    orig[j]
                }),
        decreases n - i,
    {
        if tokens[i].len() == 0 {
            let mut name: Vec<u8> = Vec::new();
            append_bytes(&mut name, "[EMPTY_".as_bytes());
            push_decimal(&mut name, i as u64);
            append_bytes(&mut name, "]".as_bytes());
            tokens[i] = name;
        }
        i = i + 1;
    }
    assert(byte_strings(tokens@) =~= name_empty_tokens(orig));
}

/// Read the tokenizer metadata from the leading bytes of a GGUF file.
pub fn parse_vocab(data: &[u8]) -> (res: Result<Vocab, GgufFault>)
    ensures
        match spec_parse_gguf(data@) {
            Ok(v) => res matches Ok(x) && x@ == v,
            Err(f) => res matches Err(g) && g == f,
        },
{
    let mut r = Reader::new(data);
    let magic = r.take(4)?;
    if !bytes_eq(magic, "GGUF".as_bytes()) {
        return Err(GgufFault::BadMagic);
    }
    let _version = r.u32()?;
    let _n_tensors = r.i64()?;
    let n_kv = r.i64()?;
    let count: u64 = if n_kv > 0 {
        n_kv as u64
    } else {
        0
    };
    let ghost p3 = r.pos as int;
    assert(count as nat == kv_count(n_kv));
    let mut vocab = Vocab::empty();
    let mut k: u64 = 0;
    while k < count
        invariant
            r.wf(),
            r.buf@ == data@,
            0 <= k <= count,
            spec_parse_gguf(data@) == finish_vocab(
                read_kvs(data@, p3, count as nat, empty_vocab_view()),
            ),
            read_kvs(data@, p3, k as nat, empty_vocab_view()) == Ok::<(VocabView, int), GgufFault>(
                (vocab@, r.pos as int),
            ),
        decreases count - k,
    {
        if let Err(f) = read_kv_exec(&mut r, &mut vocab) {
            proof {
                lemma_kvs_err(data@, p3, (k + 1) as nat, count as nat, empty_vocab_view());
            }
            return Err(f);
        }
        k = k + 1;
    }
    name_empty_tokens_exec(&mut vocab.tokens);
    Ok(vocab)
}

/// Parse the tokenizer metadata of a GGUF file held in `data` (its leading
/// bytes suffice: tensor headers and data are never read).
pub fn parse_bytes(data: &[u8]) -> (res: Result<Vocab, GgufError>)
    ensures
        match spec_parse_gguf(data@) {
            Ok(v) => res matches Ok(x) && x@ == v,
            Err(f) => res matches Err(e) && e.0@ == fault_message(f),
        },
{
    match parse_vocab(data) {
        Ok(v) => Ok(v),
        Err(f) => Err(err(f)),
    }
}

impl Vocab {
    /// text -> id: the lowest id of each token text. Empty token texts were
    /// given distinct `[EMPTY_i]` names by the parser. Ids are `u32`, so the
    /// vocabulary holds at most 2^32 tokens.
    pub fn text_to_id(&self) -> (idx: TextIndex)
        requires
            self.tokens@.len() <= 0x1_0000_0000,
        ensures
            idx.texts() == self@.tokens,
    {
        TextIndex::build(&self.tokens)
    }
}


// ---------------------------------------------------------------------------
// Laws: the reader looks only at a prefix of the file.
// ---------------------------------------------------------------------------

proof fn lemma_ext_u32(b: Seq<u8>, c: Seq<u8>, p: int)
    requires
        0 <= p,
        read_u32(b, p) != Err::<(u32, int), GgufFault>(GgufFault::Eof),
    ensures
        read_u32(b + c, p) == read_u32(b, p),
{
    let e = b + c;
    assert(e[p] == b[p] && e[p + 1] == b[p + 1] && e[p + 2] == b[p + 2] && e[p + 3] == b[p + 3]);
}

proof fn lemma_ext_u64(b: Seq<u8>, c: Seq<u8>, p: int)
    requires
        0 <= p,
        read_u64(b, p) != Err::<(u64, int), GgufFault>(GgufFault::Eof),
    ensures
        read_u64(b + c, p) == read_u64(b, p),
{
    let e = b + c;
    assert(e[p] == b[p] && e[p + 1] == b[p + 1] && e[p + 2] == b[p + 2] && e[p + 3] == b[p + 3]);
    assert(e[p + 4] == b[p + 4] && e[p + 5] == b[p + 5] && e[p + 6] == b[p + 6] && e[p + 7] == b[
        p + 7
    ]);
}

proof fn lemma_ext_bytes(b: Seq<u8>, c: Seq<u8>, p: int)
    requires
        0 <= p,
        read_bytes(b, p) != Err::<(Seq<u8>, int), GgufFault>(GgufFault::Eof),
    ensures
        read_bytes(b + c, p) == read_bytes(b, p),
        read_bytes(b, p) matches Ok((_, q)) ==> p <= q <= b.len(),
{
    lemma_ext_u64(b, c, p);
    let (len, q) = read_u64(b, p).unwrap();
    let n = len as usize as int;
    assert((b + c).subrange(q, q + n) =~= b.subrange(q, q + n));
}

proof fn lemma_ext_bytes_array(b: Seq<u8>, c: Seq<u8>, p: int, n: nat)
    requires
        0 <= p,
        read_bytes_array(b, p, n) != Err::<(Seq<Seq<u8>>, int), GgufFault>(GgufFault::Eof),
    ensures
        read_bytes_array(b + c, p, n) == read_bytes_array(b, p, n),
        read_bytes_array(b, p, n) matches Ok((_, q)) ==> p <= q,
    decreases n,
{
    if n > 0 {
        let prev = read_bytes_array(b, p, (n - 1) as nat);
        if prev is Err {
            lemma_bytes_array_err(b, p, (n - 1) as nat, n);
        }
        lemma_ext_bytes_array(b, c, p, (n - 1) as nat);
        if let Ok((_, q)) = prev {
            lemma_ext_bytes(b, c, q);
        }
    }
}

proof fn lemma_ext_u32_array(b: Seq<u8>, c: Seq<u8>, p: int, n: nat)
    requires
        0 <= p,
        read_u32_array(b, p, n) != Err::<(Seq<u32>, int), GgufFault>(GgufFault::Eof),
    ensures
        read_u32_array(b + c, p, n) == read_u32_array(b, p, n),
        read_u32_array(b, p, n) matches Ok((_, q)) ==> p <= q,
    decreases n,
{
    if n > 0 {
        let prev = read_u32_array(b, p, (n - 1) as nat);
        if prev is Err {
            lemma_u32_array_err(b, p, (n - 1) as nat, n);
        }
        lemma_ext_u32_array(b, c, p, (n - 1) as nat);
        if let Ok((_, q)) = prev {
            lemma_ext_u32(b, c, q);
        }
    }
}

proof fn lemma_ext_merge_array(b: Seq<u8>, c: Seq<u8>, p: int, n: nat)
    requires
        0 <= p,
        read_merge_array(b, p, n) != Err::<(Seq<(Seq<u8>, Seq<u8>)>, int), GgufFault>(GgufFault::Eof),
    ensures
        read_merge_array(b + c, p, n) == read_merge_array(b, p, n),
        read_merge_array(b, p, n) matches Ok((_, q)) ==> p <= q,
    decreases n,
{
    if n > 0 {
        let prev = read_merge_array(b, p, (n - 1) as nat);
        if prev is Err {
            lemma_merge_array_err(b, p, (n - 1) as nat, n);
        }
        lemma_ext_merge_array(b, c, p, (n - 1) as nat);
        if let Ok((_, q)) = prev {
            lemma_ext_bytes(b, c, q);
        }
    }
}

proof fn lemma_ext_skip_elems(b: Seq<u8>, c: Seq<u8>, p: int, n: nat, elem: i32)
    requires
        0 <= p,
        skip_elems(b, p, n, elem) != Err::<int, GgufFault>(GgufFault::Eof),
    ensures
        skip_elems(b + c, p, n, elem) == skip_elems(b, p, n, elem),
        skip_elems(b, p, n, elem) matches Ok(q) ==> p <= q,
    decreases n,
{
    if n > 0 {
        let prev = skip_elems(b, p, (n - 1) as nat, elem);
        if prev is Err {
            lemma_skip_elems_err(b, p, (n - 1) as nat, n, elem);
        }
        lemma_ext_skip_elems(b, c, p, (n - 1) as nat, elem);
        if let Ok(q) = prev {
            if elem == 8 {
                lemma_ext_bytes(b, c, q);
            }
        }
    }
}

proof fn lemma_ext_skip_value(b: Seq<u8>, c: Seq<u8>, p: int, ty: i32)
    requires
        0 <= p,
        skip_value(b, p, ty) != Err::<int, GgufFault>(GgufFault::Eof),
    ensures
        skip_value(b + c, p, ty) == skip_value(b, p, ty),
        skip_value(b, p, ty) matches Ok(q) ==> p <= q,
{
    if ty == 8 {
        lemma_ext_bytes(b, c, p);
    } else if ty == 9 {
        lemma_ext_u32(b, c, p);
        let (_, q) = read_i32(b, p).unwrap();
        lemma_ext_u64(b, c, q);
        let (n, r) = read_u64(b, q).unwrap();
        lemma_ext_skip_elems(b, c, r, n as usize as nat, read_i32(b, p).unwrap().0);
    }
}

proof fn lemma_ext_kv_text(b: Seq<u8>, c: Seq<u8>, p: int)
    requires
        0 <= p,
        kv_text(b, p) != Err::<(Seq<char>, int), GgufFault>(GgufFault::Eof),
    ensures
        kv_text(b + c, p) == kv_text(b, p),
        kv_text(b, p) matches Ok((_, q)) ==> p <= q,
{
    lemma_ext_bytes(b, c, p);
}

proof fn lemma_ext_kv_string_list(b: Seq<u8>, c: Seq<u8>, p: int, fault: GgufFault)
    requires
        0 <= p,
        kv_string_list(b, p, fault) != Err::<(Seq<Seq<u8>>, int), GgufFault>(GgufFault::Eof),
    ensures
        kv_string_list(b + c, p, fault) == kv_string_list(b, p, fault),
        kv_string_list(b, p, fault) matches Ok((_, q)) ==> p <= q,
{
    lemma_ext_u32(b, c, p);
    if let Ok((elem, q)) = read_i32(b, p) {
        if elem == 8 {
            lemma_ext_u64(b, c, q);
            if let Ok((n, r)) = read_u64(b, q) {
                lemma_ext_bytes_array(b, c, r, n as usize as nat);
            }
        }
    }
}

proof fn lemma_ext_kv_merge_list(b: Seq<u8>, c: Seq<u8>, p: int)
    requires
        0 <= p,
        kv_merge_list(b, p) != Err::<(Seq<(Seq<u8>, Seq<u8>)>, int), GgufFault>(GgufFault::Eof),
    ensures
        kv_merge_list(b + c, p) == kv_merge_list(b, p),
        kv_merge_list(b, p) matches Ok((_, q)) ==> p <= q,
{
    lemma_ext_u32(b, c, p);
    if let Ok((elem, q)) = read_i32(b, p) {
        if elem == 8 {
            lemma_ext_u64(b, c, q);
            if let Ok((n, r)) = read_u64(b, q) {
                lemma_ext_merge_array(b, c, r, n as usize as nat);
            }
        }
    }
}

proof fn lemma_ext_kv_u32_list(b: Seq<u8>, c: Seq<u8>, p: int)
    requires
        0 <= p,
        kv_u32_list(b, p) != Err::<(Seq<u32>, int), GgufFault>(GgufFault::Eof),
    ensures
        kv_u32_list(b + c, p) == kv_u32_list(b, p),
        kv_u32_list(b, p) matches Ok((_, q)) ==> p <= q,
{
    lemma_ext_u32(b, c, p);
    if let Ok((_, q)) = read_i32(b, p) {
        lemma_ext_u64(b, c, q);
        if let Ok((n, r)) = read_u64(b, q) {
            lemma_ext_u32_array(b, c, r, n as usize as nat);
        }
    }
}

proof fn lemma_ext_kv_apply(b: Seq<u8>, c: Seq<u8>, p: int, key: Seq<u8>, ty: i32, v: VocabView)
    requires
        0 <= p,
        kv_apply(b, p, key, ty, v) != Err::<(VocabView, int), GgufFault>(GgufFault::Eof),
    ensures
        kv_apply(b + c, p, key, ty, v) == kv_apply(b, p, key, ty, v),
        kv_apply(b, p, key, ty, v) matches Ok((_, q)) ==> p <= q,
{
    reveal(kv_apply);
    if key == key_model() || key == key_pre() {
        lemma_ext_kv_text(b, c, p);
    } else if key == key_add_bos() {
    } else if key == key_bos() || key == key_eos() || key == key_pad() || key == key_unknown() {
        lemma_ext_u32(b, c, p);
    } else if key == key_tokens() {
        lemma_ext_kv_string_list(b, c, p, GgufFault::TokensNotStrings);
    } else if key == key_token_type() || key == key_scores() {
        lemma_ext_kv_u32_list(b, c, p);
    } else if key == key_merges() {
        lemma_ext_kv_merge_list(b, c, p);
    } else {
        lemma_ext_skip_value(b, c, p, ty);
    }
}

proof fn lemma_ext_kvs(b: Seq<u8>, c: Seq<u8>, p: int, n: nat, v: VocabView)
    requires
        0 <= p,
        read_kvs(b, p, n, v) != Err::<(VocabView, int), GgufFault>(GgufFault::Eof),
    ensures
        read_kvs(b + c, p, n, v) == read_kvs(b, p, n, v),
        read_kvs(b, p, n, v) matches Ok((_, q)) ==> p <= q,
    decreases n,
{
    if n > 0 {
        let prev = read_kvs(b, p, (n - 1) as nat, v);
        if prev is Err {
            lemma_kvs_err(b, p, (n - 1) as nat, n, v);
        }
        lemma_ext_kvs(b, c, p, (n - 1) as nat, v);
        if let Ok((w, q)) = prev {
            lemma_ext_bytes(b, c, q);
            let (key, r) = read_bytes(b, q).unwrap();
            lemma_ext_u32(b, c, r);
            let (ty, s) = read_i32(b, r).unwrap();
            lemma_ext_kv_apply(b, c, s, key, ty, w);
        }
    }
}

/// Only a prefix of a GGUF file is read: when the metadata of the leading
/// bytes `b` parses, or fails for a reason other than running out of input,
/// every longer input `b + c` gives the same outcome. This is what lets a
/// reader stop fetching bytes once the parse no longer runs short.
pub proof fn lemma_parse_prefix_stable(b: Seq<u8>, c: Seq<u8>)
    requires
        spec_parse_gguf(b) != Err::<VocabView, GgufFault>(GgufFault::Eof),
    ensures
        spec_parse_gguf(b + c) == spec_parse_gguf(b),
{
    let e = b + c;
    assert(e.subrange(0, 4) =~= b.subrange(0, 4));
    if b.subrange(0, 4) == "GGUF".spec_bytes() {
        lemma_ext_u32(b, c, 4);
        let (_, p1) = read_u32(b, 4).unwrap();
        lemma_ext_u64(b, c, p1);
        let (_, p2) = read_i64(b, p1).unwrap();
        lemma_ext_u64(b, c, p2);
        let (n_kv, p3) = read_i64(b, p2).unwrap();
        lemma_ext_kvs(b, c, p3, kv_count(n_kv), empty_vocab_view());
    }
}

proof fn lemma_decimal_nonempty(n: nat)
    ensures
        decimal(n).len() > 0,
    decreases n,
{
    if n >= 10 {
        lemma_decimal_nonempty(n / 10);
    }
}

/// Every token text of parsed metadata is non-empty: an empty stored text
/// is replaced by its `[EMPTY_i]` name.
pub proof fn lemma_parsed_tokens_nonempty(b: Seq<u8>)
    ensures
        spec_parse_gguf(b) matches Ok(v) ==> forall|i: int|
            0 <= i < v.tokens.len() ==> #[trigger] v.tokens[i].len() > 0,
{
    if let Ok(v) = spec_parse_gguf(b) {
        assert forall|i: int| 0 <= i < v.tokens.len() implies #[trigger] v.tokens[i].len() > 0 by {
            lemma_decimal_nonempty(i as nat);
        }
    }
}


proof fn lemma_decimal_injective(n: nat, m: nat)
    requires
        decimal(n) == decimal(m),
    ensures
        n == m,
    decreases n,
{
    lemma_decimal_nonempty(n / 10);
    lemma_decimal_nonempty(m / 10);
    if n >= 10 && m >= 10 {
        assert(decimal(n).drop_last() == decimal(n / 10));
        assert(decimal(m).drop_last() == decimal(m / 10));
        lemma_decimal_injective(n / 10, m / 10);
        assert(decimal(n).last() == (48 + n % 10) as u8);
        assert(decimal(m).last() == (48 + m % 10) as u8);
        assert(n % 10 == m % 10);
        assert(n == (n / 10) * 10 + n % 10);
        assert(m == (m / 10) * 10 + m % 10);
    } else if n < 10 && m < 10 {
        assert(decimal(n)[0] == decimal(m)[0]);
        assert(decimal(n)[0] == (48 + n) as u8);
        assert(decimal(m)[0] == (48 + m) as u8);
    } else if n < 10 {
        assert(decimal(n).len() == 1);
        assert(decimal(m).len() == decimal(m / 10).len() + 1);
    } else {
        assert(decimal(m).len() == 1);
        assert(decimal(n).len() == decimal(n / 10).len() + 1);
    }
}

/// Distinct empty tokens get distinct names.
pub proof fn lemma_empty_token_names_distinct(i: nat, j: nat)
    requires
        i != j,
    ensures
        empty_token_name(i) != empty_token_name(j),
{
    let a = "[EMPTY_".spec_bytes();
    let c = "]".spec_bytes();
    if empty_token_name(i) == empty_token_name(j) {
        let x = empty_token_name(i);
        assert(x.len() == a.len() + decimal(i).len() + c.len());
        assert(x.len() == a.len() + decimal(j).len() + c.len());
        assert(x.subrange(a.len() as int, (a.len() + decimal(i).len()) as int) =~= decimal(i));
        assert(x.subrange(a.len() as int, (a.len() + decimal(j).len()) as int) =~= decimal(j));
        lemma_decimal_injective(i, j);
    }
}


// ---------------------------------------------------------------------------
// Laws: a KV pair the reader does not know is skipped without effect.
// ---------------------------------------------------------------------------

/// `r` with its end position moved `d` bytes on.
spec fn moved<T>(r: Result<(T, int), GgufFault>, d: int) -> Result<(T, int), GgufFault> {
    match r {
        Ok((x, q)) => Ok((x, q + d)),
        Err(f) => Err(f),
    }
}

/// `r`, a position, moved `d` bytes on.
spec fn moved_pos(r: Result<int, GgufFault>, d: int) -> Result<int, GgufFault> {
    match r {
        Ok(q) => Ok(q + d),
        Err(f) => Err(f),
    }
}

proof fn lemma_mv_take(a: Seq<u8>, b: Seq<u8>, p: int, n: int)
    ensures
        read_take(a + b, a.len() + p, n) == moved_pos(read_take(b, p, n), a.len() as int),
{
}

proof fn lemma_mv_u8(a: Seq<u8>, b: Seq<u8>, p: int)
    requires
        0 <= p,
    ensures
        read_u8(a + b, a.len() + p) == moved(read_u8(b, p), a.len() as int),
{
    if p + 1 <= b.len() {
        assert((a + b)[a.len() + p] == b[p]);
    }
}

proof fn lemma_mv_u32(a: Seq<u8>, b: Seq<u8>, p: int)
    requires
        0 <= p,
    ensures
        read_u32(a + b, a.len() + p) == moved(read_u32(b, p), a.len() as int),
        read_i32(a + b, a.len() + p) == moved(read_i32(b, p), a.len() as int),
{
    let e = a + b;
    let d = a.len() as int;
    if p + 4 <= b.len() {
        assert(e[d + p] == b[p] && e[d + p + 1] == b[p + 1] && e[d + p + 2] == b[p + 2] && e[d
            + p + 3] == b[p + 3]);
        assert(le_u32(e, d + p) == le_u32(b, p));
    }
}

proof fn lemma_mv_u64(a: Seq<u8>, b: Seq<u8>, p: int)
    requires
        0 <= p,
    ensures
        read_u64(a + b, a.len() + p) == moved(read_u64(b, p), a.len() as int),
        read_i64(a + b, a.len() + p) == moved(read_i64(b, p), a.len() as int),
{
    let e = a + b;
    let d = a.len() as int;
    if p + 8 <= b.len() {
        assert(e[d + p] == b[p] && e[d + p + 1] == b[p + 1] && e[d + p + 2] == b[p + 2] && e[d
            + p + 3] == b[p + 3]);
        assert(e[d + p + 4] == b[p + 4] && e[d + p + 5] == b[p + 5] && e[d + p + 6] == b[p + 6]
            && e[d + p + 7] == b[p + 7]);
        assert(le_u32(e, d + p) == le_u32(b, p));
        assert(le_u32(e, d + p + 4) == le_u32(b, p + 4));
        assert(le_u64(e, d + p) == le_u64(b, p));
    }
}

proof fn lemma_mv_bytes(a: Seq<u8>, b: Seq<u8>, p: int)
    requires
        0 <= p,
    ensures
        read_bytes(a + b, a.len() + p) == moved(read_bytes(b, p), a.len() as int),
        read_bytes(b, p) matches Ok((_, q)) ==> p <= q,
{
    lemma_mv_u64(a, b, p);
    if let Ok((len, q)) = read_u64(b, p) {
        let n = len as usize as int;
        let d = a.len() as int;
        if q + n <= b.len() {
            assert((a + b).subrange(d + q, d + q + n) =~= b.subrange(q, q + n));
        }
    }
}

proof fn lemma_mv_bytes_array(a: Seq<u8>, b: Seq<u8>, p: int, n: nat)
    requires
        0 <= p,
    ensures
        read_bytes_array(a + b, a.len() + p, n) == moved(read_bytes_array(b, p, n), a.len() as int),
        read_bytes_array(b, p, n) matches Ok((_, q)) ==> p <= q,
    decreases n,
{
    if n > 0 {
        lemma_mv_bytes_array(a, b, p, (n - 1) as nat);
        if let Ok((_, q)) = read_bytes_array(b, p, (n - 1) as nat) {
            lemma_mv_bytes(a, b, q);
        }
    }
}

proof fn lemma_mv_u32_array(a: Seq<u8>, b: Seq<u8>, p: int, n: nat)
    requires
        0 <= p,
    ensures
        read_u32_array(a + b, a.len() + p, n) == moved(read_u32_array(b, p, n), a.len() as int),
        read_u32_array(b, p, n) matches Ok((_, q)) ==> p <= q,
    decreases n,
{
    if n > 0 {
        lemma_mv_u32_array(a, b, p, (n - 1) as nat);
        if let Ok((_, q)) = read_u32_array(b, p, (n - 1) as nat) {
            lemma_mv_u32(a, b, q);
        }
    }
}

proof fn lemma_mv_merge_array(a: Seq<u8>, b: Seq<u8>, p: int, n: nat)
    requires
        0 <= p,
    ensures
        read_merge_array(a + b, a.len() + p, n) == moved(read_merge_array(b, p, n), a.len() as int),
        read_merge_array(b, p, n) matches Ok((_, q)) ==> p <= q,
    decreases n,
{
    if n > 0 {
        lemma_mv_merge_array(a, b, p, (n - 1) as nat);
        if let Ok((_, q)) = read_merge_array(b, p, (n - 1) as nat) {
            lemma_mv_bytes(a, b, q);
        }
    }
}

proof fn lemma_mv_skip_elems(a: Seq<u8>, b: Seq<u8>, p: int, n: nat, elem: i32)
    requires
        0 <= p,
    ensures
        skip_elems(a + b, a.len() + p, n, elem) == moved_pos(skip_elems(b, p, n, elem), a.len() as int),
        skip_elems(b, p, n, elem) matches Ok(q) ==> p <= q,
    decreases n,
{
    if n > 0 {
        lemma_mv_skip_elems(a, b, p, (n - 1) as nat, elem);
        if let Ok(q) = skip_elems(b, p, (n - 1) as nat, elem) {
            lemma_mv_bytes(a, b, q);
            lemma_mv_take(a, b, q, stride_of(elem));
        }
    }
}

proof fn lemma_mv_skip_value(a: Seq<u8>, b: Seq<u8>, p: int, ty: i32)
    requires
        0 <= p,
    ensures
        skip_value(a + b, a.len() + p, ty) == moved_pos(skip_value(b, p, ty), a.len() as int),
        skip_value(b, p, ty) matches Ok(q) ==> p <= q,
{
    lemma_mv_take(a, b, p, 1);
    lemma_mv_take(a, b, p, 2);
    lemma_mv_take(a, b, p, 4);
    lemma_mv_take(a, b, p, 8);
    lemma_mv_bytes(a, b, p);
    lemma_mv_u32(a, b, p);
    if let Ok((elem, q)) = read_i32(b, p) {
        lemma_mv_u64(a, b, q);
        if let Ok((n, r)) = read_u64(b, q) {
            lemma_mv_skip_elems(a, b, r, n as usize as nat, elem);
        }
    }
}

proof fn lemma_mv_lists(a: Seq<u8>, b: Seq<u8>, p: int, fault: GgufFault)
    requires
        0 <= p,
    ensures
        kv_text(a + b, a.len() + p) == moved(kv_text(b, p), a.len() as int),
        kv_string_list(a + b, a.len() + p, fault) == moved(kv_string_list(b, p, fault), a.len() as int),
        kv_merge_list(a + b, a.len() + p) == moved(kv_merge_list(b, p), a.len() as int),
        kv_u32_list(a + b, a.len() + p) == moved(kv_u32_list(b, p), a.len() as int),
        kv_text(b, p) matches Ok((_, q)) ==> p <= q,
        kv_string_list(b, p, fault) matches Ok((_, q)) ==> p <= q,
        kv_merge_list(b, p) matches Ok((_, q)) ==> p <= q,
        kv_u32_list(b, p) matches Ok((_, q)) ==> p <= q,
{
    lemma_mv_bytes(a, b, p);
    lemma_mv_u32(a, b, p);
    if let Ok((_, q)) = read_i32(b, p) {
        lemma_mv_u64(a, b, q);
        if let Ok((n, r)) = read_u64(b, q) {
            lemma_mv_bytes_array(a, b, r, n as usize as nat);
            lemma_mv_merge_array(a, b, r, n as usize as nat);
            lemma_mv_u32_array(a, b, r, n as usize as nat);
        }
    }
}

proof fn lemma_mv_kv_apply(a: Seq<u8>, b: Seq<u8>, p: int, key: Seq<u8>, ty: i32, v: VocabView)
    requires
        0 <= p,
    ensures
        kv_apply(a + b, a.len() + p, key, ty, v) == moved(kv_apply(b, p, key, ty, v), a.len() as int),
        kv_apply(b, p, key, ty, v) matches Ok((_, q)) ==> p <= q,
{
    reveal(kv_apply);
    lemma_mv_lists(a, b, p, GgufFault::TokensNotStrings);
    lemma_mv_u8(a, b, p);
    lemma_mv_u32(a, b, p);
    lemma_mv_skip_value(a, b, p, ty);
}

proof fn lemma_mv_kvs(a: Seq<u8>, b: Seq<u8>, p: int, n: nat, v: VocabView)
    requires
        0 <= p,
    ensures
        read_kvs(a + b, a.len() + p, n, v) == moved(read_kvs(b, p, n, v), a.len() as int),
        read_kvs(b, p, n, v) matches Ok((_, q)) ==> p <= q,
    decreases n,
{
    if n > 0 {
        lemma_mv_kvs(a, b, p, (n - 1) as nat, v);
        if let Ok((w, q)) = read_kvs(b, p, (n - 1) as nat, v) {
            lemma_mv_bytes(a, b, q);
            if let Ok((key, r)) = read_bytes(b, q) {
                lemma_mv_u32(a, b, r);
                if let Ok((ty, s)) = read_i32(b, r) {
                    lemma_mv_kv_apply(a, b, s, key, ty, w);
                }
            }
        }
    }
}


/// `key` is one of the keys whose value the reader records.
pub open spec fn is_tokenizer_key(key: Seq<u8>) -> bool {
    key == key_model() || key == key_pre() || key == key_add_bos() || key == key_bos() || key
        == key_eos() || key == key_pad() || key == key_unknown() || key == key_tokens() || key
        == key_token_type() || key == key_scores() || key == key_merges()
}

/// `e` is exactly one KV pair (name, type, value) whose key the reader does
/// not record and whose value is well formed.
pub open spec fn ignored_kv(e: Seq<u8>) -> bool {
    match read_bytes(e, 0) {
        Ok((key, q)) => match read_i32(e, q) {
            Ok((ty, r)) => !is_tokenizer_key(key) && skip_value(e, r, ty) == Ok::<
                int,
                GgufFault,
            >(e.len() as int),
            Err(_) => false,
        },
        Err(_) => false,
    }
}

/// The number of KV pairs a 24-byte header announces.
pub open spec fn header_kv_count(h: Seq<u8>) -> nat {
    kv_count(le_u64(h, 16) as i64)
}

proof fn lemma_ignored_kv_read(e: Seq<u8>, v: VocabView)
    requires
        ignored_kv(e),
    ensures
        read_kvs(e, 0, 1, v) == Ok::<(VocabView, int), GgufFault>((v, e.len() as int)),
{
    reveal(kv_apply);
    assert(read_kvs(e, 0, 0, v) == Ok::<(VocabView, int), GgufFault>((v, 0int)));
}

proof fn lemma_kvs_split(b: Seq<u8>, p: int, j: nat, m: nat, v: VocabView)
    ensures
        read_kvs(b, p, j + m, v) == match read_kvs(b, p, j, v) {
            Ok((w, q)) => read_kvs(b, q, m, w),
            Err(f) => Err(f),
        },
    decreases m,
{
    if m > 0 {
        lemma_kvs_split(b, p, j, (m - 1) as nat, v);
        assert((j + m - 1) as nat == j + (m - 1) as nat);
    }
}

proof fn lemma_parse_with_header(h: Seq<u8>, rest: Seq<u8>)
    requires
        h.len() == 24,
        h.subrange(0, 4) == "GGUF".spec_bytes(),
    ensures
        spec_parse_gguf(h + rest) == finish_vocab(
            read_kvs(h + rest, 24, header_kv_count(h), empty_vocab_view()),
        ),
{
    let b = h + rest;
    assert(b.subrange(0, 4) =~= h.subrange(0, 4));
    lemma_ext_u32(h, rest, 4);
    lemma_ext_u64(h, rest, 8);
    lemma_ext_u64(h, rest, 16);
}

/// A KV pair whose key the reader does not record is skipped without effect:
/// inserting one, well formed, after the first `j` KV pairs of a file (and
/// raising the header's KV count by one) leaves the outcome unchanged,
/// whether it is the metadata or an error.
#[verifier::spinoff_prover]
#[verifier::rlimit(40)]
pub proof fn lemma_ignored_kv_inserted(
    h1: Seq<u8>,
    h2: Seq<u8>,
    k1: Seq<u8>,
    e: Seq<u8>,
    k2: Seq<u8>,
    j: nat,
)
    requires
        h1.len() == 24,
        h2.len() == 24,
        h1.subrange(0, 4) == "GGUF".spec_bytes(),
        h2.subrange(0, 4) == "GGUF".spec_bytes(),
        header_kv_count(h2) == header_kv_count(h1) + 1,
        j <= header_kv_count(h1),
        read_kvs(k1, 0, j, empty_vocab_view()) matches Ok((_, q)) && q == k1.len(),
        ignored_kv(e),
    ensures
        spec_parse_gguf(h2 + k1 + e + k2) == spec_parse_gguf(h1 + k1 + k2),
{
    let n = header_kv_count(h1);
    let m = (n - j) as nat;
    let v0 = empty_vocab_view();
    let w = read_kvs(k1, 0, j, v0).unwrap().0;
    let q = k1.len() as int;
    let f1 = h1 + k1 + k2;
    let f2 = h2 + k1 + e + k2;
    assert(f1 =~= h1 + (k1 + k2));
    assert(f2 =~= h2 + (k1 + (e + k2)));
    lemma_parse_with_header(h1, k1 + k2);
    lemma_parse_with_header(h2, k1 + (e + k2));
    // The first `j` pairs read alike, ending after `k1`.
    lemma_ext_kvs(k1, k2, 0, j, v0);
    lemma_ext_kvs(k1, e + k2, 0, j, v0);
    lemma_mv_kvs(h1, k1 + k2, 0, j, v0);
    lemma_mv_kvs(h2, k1 + (e + k2), 0, j, v0);
    assert(read_kvs(f1, 24, j, v0) == Ok::<(VocabView, int), GgufFault>((w, 24 + q)));
    assert(read_kvs(f2, 24, j, v0) == Ok::<(VocabView, int), GgufFault>((w, 24 + q)));
    lemma_kvs_split(f1, 24, j, m, v0);
    assert(j + m == n);
    lemma_kvs_split(f2, 24, j, 1 + m, v0);
    assert(j + (1 + m) == n + 1);
    lemma_kvs_split(f2, 24 + q, 1, m, w);
    // The inserted pair changes nothing.
    lemma_ignored_kv_read(e, w);
    lemma_ext_kvs(e, k2, 0, 1, w);
    assert(f2 =~= (h2 + k1) + (e + k2));
    lemma_mv_kvs(h2 + k1, e + k2, 0, 1, w);
    assert(read_kvs(f2, 24 + q, 1, w) == Ok::<(VocabView, int), GgufFault>(
        (w, 24 + q + e.len()),
    ));
    // The remaining pairs read alike, shifted by the inserted bytes.
    assert(f1 =~= (h1 + k1) + k2);
    lemma_mv_kvs(h1 + k1, k2, 0, m, w);
    assert(f2 =~= (h2 + k1 + e) + k2);
    lemma_mv_kvs(h2 + k1 + e, k2, 0, m, w);
}



// ---------------------------------------------------------------------------
// Laws: the widths of the GGUF scalar types.
// ---------------------------------------------------------------------------

proof fn lemma_skip_elems_width(b: Seq<u8>, p: int, n: nat, elem: i32, w: int)
    requires
        p <= b.len(),
        elem != 8,
        stride_of(elem) == w,
        1 <= w,
    ensures
        skip_elems(b, p, n, elem) == (if p + n * w <= b.len() {
            Ok::<int, GgufFault>(p + n * w)
        } else {
            Err(GgufFault::Eof)
        }),
    decreases n,
{
    if n > 0 {
        lemma_skip_elems_width(b, p, (n - 1) as nat, elem, w);
        assert((n - 1) as nat * w + w == n * w) by (nonlinear_arith)
            requires
                n > 0,
        ;
        assert(n * w >= (n - 1) as nat * w) by (nonlinear_arith)
            requires
                n > 0,
                w >= 1,
        ;
    } else {
        assert(0 * w == 0);
    }
}

/// Skipping one scalar value moves past exactly its width in the GGUF type
/// table: 1 byte for u8, i8 and bool (types 0, 1, 7), 2 for u16 and i16
/// (2, 3), 4 for u32, i32 and f32 (4, 5, 6), 8 for u64, i64 and f64
/// (10, 11, 12); when fewer bytes are left the input has run out.
pub proof fn lemma_scalar_value_widths(b: Seq<u8>, p: int, ty: i32)
    ensures
        ty == 0 || ty == 1 || ty == 7 ==> skip_value(b, p, ty) == (if p + 1 <= b.len() {
            Ok::<int, GgufFault>(p + 1)
        } else {
            Err(GgufFault::Eof)
        }),
        ty == 2 || ty == 3 ==> skip_value(b, p, ty) == (if p + 2 <= b.len() {
            Ok::<int, GgufFault>(p + 2)
        } else {
            Err(GgufFault::Eof)
        }),
        ty == 4 || ty == 5 || ty == 6 ==> skip_value(b, p, ty) == (if p + 4 <= b.len() {
            Ok::<int, GgufFault>(p + 4)
        } else {
            Err(GgufFault::Eof)
        }),
        ty == 10 || ty == 11 || ty == 12 ==> skip_value(b, p, ty) == (if p + 8 <= b.len() {
            Ok::<int, GgufFault>(p + 8)
        } else {
            Err(GgufFault::Eof)
        }),
        ty < 0 || ty > 12 ==> skip_value(b, p, ty) == Err::<int, GgufFault>(GgufFault::UnknownType),
{
}

/// Skipping an array of `n` scalars moves past `n` times the element width
/// of the GGUF type table (an element type outside it counts 4 bytes),
/// from any position inside the input.
pub proof fn lemma_scalar_array_widths(b: Seq<u8>, p: int, n: nat, elem: i32)
    requires
        p <= b.len(),
    ensures
        elem == 0 || elem == 1 || elem == 7 ==> skip_elems(b, p, n, elem) == (if p + n <= b.len() {
            Ok::<int, GgufFault>(p + n)
        } else {
            Err(GgufFault::Eof)
        }),
        elem == 2 || elem == 3 ==> skip_elems(b, p, n, elem) == (if p + 2 * n <= b.len() {
            Ok::<int, GgufFault>(p + 2 * n)
        } else {
            Err(GgufFault::Eof)
        }),
        elem == 4 || elem == 5 || elem == 6 ==> skip_elems(b, p, n, elem) == (if p + 4 * n
            <= b.len() {
            Ok::<int, GgufFault>(p + 4 * n)
        } else {
            Err(GgufFault::Eof)
        }),
        elem == 10 || elem == 11 || elem == 12 ==> skip_elems(b, p, n, elem) == (if p + 8 * n
            <= b.len() {
            Ok::<int, GgufFault>(p + 8 * n)
        } else {
            Err(GgufFault::Eof)
        }),
        elem != 8 && (elem < 0 || elem > 12 || elem == 9) ==> skip_elems(b, p, n, elem) == (if p
            + 4 * n <= b.len() {
            Ok::<int, GgufFault>(p + 4 * n)
        } else {
            Err(GgufFault::Eof)
        }),
{
    if elem != 8 {
        let w = stride_of(elem);
        lemma_skip_elems_width(b, p, n, elem, w);
        assert(n * 1 == n);
        assert(n * 2 == 2 * n);
        assert(n * 4 == 4 * n);
        assert(n * 8 == 8 * n);
    }
}

} // verus!
