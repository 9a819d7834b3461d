//! A local tokenizer addon for a direct-token chat server.
//!
//! Pipeline:
//!   1. Parse GGUF model metadata to recover the BPE vocab (`gguf`).
//!   2. Tokenize locally — through a gigatoken C-ABI tokenizer when the host
//!      has one, otherwise with the byte-level BPE of `bpe`.
//!   3. Render direct-token chat requests whose message content carries the
//!      locally computed ids (`pretok`), so the server skips re-tokenizing the
//!      bulk prompt.
pub mod bpe;
pub mod bytes_to_unicode;
pub mod gguf;
pub mod gtffi;
pub mod hftok;
pub mod index;
pub mod pretok;
pub mod textutil;

use vstd::prelude::*;
use crate::bpe::{bpe_encode, resolve_merges, BpeTokenizer};
use crate::gguf::Vocab;
use crate::gtffi::GtError;

verus! {

/// A tokenizer backed by the gigatoken C ABI, as the host provides it.
pub trait GigatokenEncoder {
    /// Encode raw text bytes into token ids.
    fn encode(&self, text: &[u8]) -> Result<Vec<u32>, GtError>;
}

/// A tokenizer ready to use.
pub enum Tokenizer<G> {
    /// gigatoken C ABI (loaded native lib).
    Gigatoken(G),
    /// pure-Rust fallback.
    Bpe(BpeTokenizer),
}

/// The ids of a gigatoken encoding, or none when it failed.
pub fn ids_or_empty(r: Result<Vec<u32>, GtError>) -> (ids: Vec<u32>)
    ensures
        r matches Ok(v) ==> ids == v,
        r is Err ==> ids@.len() == 0,
{
    match r {
        Ok(v) => v,
        Err(_) => Vec::new(),
    }
}

impl<G: GigatokenEncoder> Tokenizer<G> {
    /// Build from a parsed vocab, preferring gigatoken: `gigatoken` is the
    /// outcome of creating a gigatoken tokenizer for the same vocab. The
    /// BPE fallback indexes ids as `u32`, so the vocab holds at most 2^32
    /// tokens.
    pub fn from_vocab(vocab: &Vocab, gigatoken: Result<G, GtError>) -> (res: Result<
        Tokenizer<G>,
        GtError,
    >)
        requires
            vocab.tokens@.len() <= 0x1_0000_0000,
        ensures
            gigatoken is Ok ==> (res matches Ok(Tokenizer::Gigatoken(g)) && g == gigatoken->Ok_0),
            gigatoken is Err ==> (res matches Ok(Tokenizer::Bpe(t)) && t.texts() == vocab@.tokens
                && t.merge_table() == resolve_merges(vocab@.tokens, vocab@.merges)),
    {
        match gigatoken {
            Ok(t) => Ok(Tokenizer::Gigatoken(t)),
            Err(_) => Ok(Tokenizer::Bpe(BpeTokenizer::new(vocab))),
        }
    }

    /// Encode raw bytes into token ids; a failed gigatoken encoding gives no
    /// ids.
    pub fn encode(&self, text: &[u8]) -> (ids: Vec<u32>)
        ensures
            self matches Tokenizer::Bpe(t) ==> ids@ == bpe_encode(
                t.texts(),
                t.merge_table(),
                text@,
            ),
            self matches Tokenizer::Gigatoken(g) ==> exists|r: Result<Vec<u32>, GtError>|
                call_ensures(G::encode, (g, text), r) && ((r matches Ok(v) && ids == v) || (
                r is Err && ids@.len() == 0)),
    {
        match self {
            Tokenizer::Gigatoken(t) => ids_or_empty(t.encode(text)),
            Tokenizer::Bpe(t) => t.encode(text),
        }
    }
}


/// How many bytes of a `len`-byte reply fit in a C buffer of `out_cap`
/// bytes, one byte being kept for the terminating NUL.
pub fn c_string_copy_len(len: usize, out_cap: usize) -> (n: usize)
    ensures
        n == if out_cap == 0 {
            0
        } else if len < out_cap - 1 {
            len as int
        } else {
            out_cap - 1
        },
{
    let room = if out_cap == 0 {
        0
    } else {
        out_cap - 1
    };
    if len < room {
        len
    } else {
        room
    }
}

} // verus!
