//! GPT-2 `bytes_to_unicode` reverse table.
//!
//! Byte-level BPE vocabularies store each of the 256 byte-fallback tokens as a
//! printable unicode character chosen by the GPT-2 `bytes_to_unicode` mapping.
//! This module maps the UTF-8 text of such a character back to its raw byte.
use vstd::prelude::*;

verus! {

/// The code point that GPT-2's `bytes_to_unicode` assigns to byte `b`.
///
/// Printable bytes (`!`..=`~`, `¡`..=`¬`, `®`..=`ÿ`) stand for themselves; the
/// remaining 68 bytes are numbered in increasing order from U+0100.
pub open spec fn byte_code_point(b: u8) -> nat {
    if (33 <= b && b <= 126) || (161 <= b && b <= 172) || (174 <= b && b <= 255) {
        b as nat
    } else if b <= 32 {
        (256 + b) as nat
    } else if b <= 160 {
        (256 + 33 + (b - 127)) as nat
    } else {
        323
    }
}

/// The UTF-8 encoding of a code point below U+0800.
pub open spec fn utf8_two_byte_or_less(cp: nat) -> Seq<u8> {
    if cp < 128 {
        seq![cp as u8]
    } else {
        seq![(0xC0 + cp / 64) as u8, (0x80 + cp % 64) as u8]
    }
}

/// The stored text of the byte-fallback token for byte `b`.
pub open spec fn byte_token_text(b: u8) -> Seq<u8> {
    utf8_two_byte_or_less(byte_code_point(b))
}

/// Map one of the 256 GPT-2 byte-fallback unicode chars (as UTF-8 bytes) back
/// to its raw byte. Returns `None` when `text` is not a byte-token char.
pub fn transcode_byte_token(text: &[u8]) -> (res: Option<u8>)
    ensures
        res matches Some(b) ==> text@ == byte_token_text(b),
        res is None ==> forall|b: u8| text@ != #[trigger] byte_token_text(b),
{
    if text.len() == 1 {
        let c = text[0];
        if 33 <= c && c <= 126 {
            return Some(c);
        }
        assert forall|b: u8| text@ != #[trigger] byte_token_text(b) by {
            if text@ == byte_token_text(b) {
                assert(byte_token_text(b).len() == 1);
            }
        }
        return None;
    }
    if text.len() != 2 {
        assert forall|b: u8| text@ != #[trigger] byte_token_text(b) by {
            assert(byte_token_text(b).len() == 1 || byte_token_text(b).len() == 2);
        }
        return None;
    }
    let lead = text[0];
    let cont = text[1];
    if lead < 0xC2 || lead > 0xC5 || cont < 0x80 || cont > 0xBF {
        assert forall|b: u8| text@ != #[trigger] byte_token_text(b) by {
            if text@ == byte_token_text(b) {
                let cp = byte_code_point(b);
                assert(cp >= 128 && cp <= 323);
                assert(text@[0] == (0xC0 + cp / 64) as u8);
                assert(text@[1] == (0x80 + cp % 64) as u8);
            }
        }
        return None;
    }
    let cp: u32 = ((lead - 0xC0) as u32) * 64 + ((cont - 0x80) as u32);
    assert(cp / 64 == lead - 0xC0 && cp % 64 == cont - 0x80);
    let res: Option<u8> = if (161 <= cp && cp <= 172) || (174 <= cp && cp <= 255) {
        Some(cp as u8)
    } else if 256 <= cp && cp <= 288 {
        Some((cp - 256) as u8)
    } else if 289 <= cp && cp <= 322 {
        Some((cp - 289 + 127) as u8)
    } else if cp == 323 {
        Some(173u8)
    } else {
        None
    };
    proof {
        if let Some(b) = res {
            assert(byte_code_point(b) == cp);
            assert(text@ =~= byte_token_text(b));
        } else {
            assert forall|b: u8| text@ != #[trigger] byte_token_text(b) by {
                if text@ == byte_token_text(b) {
                    let bp = byte_code_point(b);
                    if bp < 128 {
                        assert(byte_token_text(b).len() == 1);
                    } else {
                        assert(text@[0] == (0xC0 + bp / 64) as u8);
                        assert(text@[1] == (0x80 + bp % 64) as u8);
                        assert(bp == cp);
                    }
                }
            }
        }
    }
    res
}


/// Distinct bytes have distinct byte-fallback texts, so the reverse table is
/// well defined: `transcode_byte_token(byte_token_text(b)) == Some(b)`.
pub proof fn lemma_byte_token_text_injective(b1: u8, b2: u8)
    requires
        byte_token_text(b1) == byte_token_text(b2),
    ensures
        b1 == b2,
{
    let c1 = byte_code_point(b1);
    let c2 = byte_code_point(b2);
    let t = byte_token_text(b1);
    if c1 < 128 || c2 < 128 {
        assert(t.len() == 1);
        assert(c1 < 128 && c2 < 128);
        assert(t[0] == c1 as u8 && t[0] == c2 as u8);
    } else {
        assert(t[0] == (0xC0 + c1 / 64) as u8 && t[0] == (0xC0 + c2 / 64) as u8);
        assert(t[1] == (0x80 + c1 % 64) as u8 && t[1] == (0x80 + c2 % 64) as u8);
        assert(c1 == c2);
    }
}

/// The byte-fallback text of `b` is the UTF-8 encoding of the code point
/// that GPT-2's `bytes_to_unicode` assigns to it.
pub proof fn lemma_byte_token_text_is_utf8(b: u8)
    ensures
        vstd::utf8::is_scalar(byte_code_point(b) as u32),
        byte_token_text(b) == vstd::utf8::encode_scalar(byte_code_point(b) as u32),
{
    let cp = byte_code_point(b) as u32;
    if cp < 128 {
        assert(cp & 0x7F == cp) by (bit_vector)
            requires
                cp < 128,
        ;
    } else {
        assert((0xC0u8 | ((cp >> 6) & 0x1F) as u8) == (0xC0 + cp / 64) as u8 && (0x80u8 | (cp
            & 0x3F) as u8) == (0x80 + cp % 64) as u8) by (bit_vector)
            requires
                128 <= cp <= 323,
        ;
        assert(byte_token_text(b) =~= vstd::utf8::encode_scalar(cp));
    }
}

} // verus!
