//! Preparing a server's HuggingFace `tokenizer.json` for gigatoken.
//!
//! The model server publishes its tokenizer as `tokenizer.json`; gigatoken's
//! HF loader recognizes the qwen35 pre-tokenizer only by the exact spelling of
//! its split regex. The server spells the apostrophe contractions as explicit
//! case classes, gigatoken as an inline `(?i:...)` group; the two regexes are
//! equivalent, so only the spelling is rewritten here.
use vstd::prelude::*;
use vstd::string::*;
use crate::pretok::occurs_at;
use crate::textutil::{append_bytes, bytes_eq, lossy_string, utf8_lossy};

verus! {

/// The server/jinja spelling of the qwen35 regex: apostrophes written out as
/// explicit case classes instead of an inline `(?i:...)` group.
pub const SERVER_QWEN35_PREFIX: &'static str = "(?:'[sS]|'[tT]|'[rR][eE]|'[vV][eE]|'[mM]|'[lL][lL]|'[dD])";

/// gigatoken's canonical spelling of the same alternatives.
pub const CANONICAL_QWEN35_PREFIX: &'static str = "(?i:'s|'t|'re|'ve|'m|'ll|'d)";

/// `s` from index `i` on, with every occurrence of `pat` (found left to
/// right, without overlap) replaced by `rep`. An empty `pat` replaces nothing.
pub open spec fn replace_from(s: Seq<u8>, pat: Seq<u8>, rep: Seq<u8>, i: int) -> Seq<u8>
    decreases s.len() - i,
{
    if i < 0 || i >= s.len() {
        seq![]
    } else if pat.len() > 0 && i + pat.len() <= s.len() && s.subrange(i, i + pat.len()) == pat {
        rep + replace_from(s, pat, rep, i + pat.len())
    } else {
        seq![s[i]] + replace_from(s, pat, rep, i + 1)
    }
}

/// `s` with every occurrence of `pat` replaced by `rep`, as `str::replace`
/// does it (on UTF-8 bytes).
pub open spec fn replace_all(s: Seq<u8>, pat: Seq<u8>, rep: Seq<u8>) -> Seq<u8> {
    replace_from(s, pat, rep, 0)
}

/// Replace every occurrence of `pat` in `s` by `rep`.
pub fn replace_bytes(s: &[u8], pat: &[u8], rep: &[u8]) -> (out: Vec<u8>)
    ensures
        out@ == replace_all(s@, pat@, rep@),
{
    let mut out: Vec<u8> = Vec::new();
    let mut i: usize = 0;
    let n = s.len();
    let m = pat.len();
    while i < n
        invariant
            0 <= i <= n,
            n == s@.len(),
            m == pat@.len(),
            out@ + replace_from(s@, pat@, rep@, i as int) == replace_all(s@, pat@, rep@),
        decreases n - i,
    {
        let ghost before = out@;
        if m > 0 && m <= n - i && bytes_eq(vstd::slice::slice_subrange(s, i, i + m), pat) {
            append_bytes(&mut out, rep);
            assert(out@ + replace_from(s@, pat@, rep@, (i + m) as int) =~= before + replace_from(
                s@,
                pat@,
                rep@,
                i as int,
            ));
            i = i + m;
        } else {
            out.push(s[i]);
            assert(out@ + replace_from(s@, pat@, rep@, (i + 1) as int) =~= before + replace_from(
                s@,
                pat@,
                rep@,
                i as int,
            ));
            i = i + 1;
        }
    }
    assert(replace_from(s@, pat@, rep@, n as int) =~= seq![]);
    assert(out@ =~= out@ + replace_from(s@, pat@, rep@, n as int));
    out
}

/// What `normalize_pre_tokenizer` makes of the bytes of a `tokenizer.json`:
/// its lossy UTF-8 text, re-encoded, with the server's regex prefix spelled
/// canonically.
pub open spec fn spec_normalize_pre_tokenizer(json: Seq<u8>) -> Seq<u8> {
    replace_all(
        vstd::utf8::encode_utf8(utf8_lossy(json)),
        SERVER_QWEN35_PREFIX.spec_bytes(),
        CANONICAL_QWEN35_PREFIX.spec_bytes(),
    )
}

/// Normalize the pre_tokenizer `Split` regex in a fetched tokenizer.json so
/// gigatoken's exact-string recognizer maps it to the Qwen35 fast
/// pretokenizer. The server's regex is equivalent; we only fix the spelling.
///
/// Valid UTF-8 in which the server's spelling does not occur comes back
/// unchanged; the result is valid UTF-8 and never holds that spelling, so
/// normalizing it again gives it back unchanged.
pub fn normalize_pre_tokenizer(json: &[u8]) -> (out: Vec<u8>)
    ensures
        out@ == spec_normalize_pre_tokenizer(json@),
        vstd::utf8::valid_utf8(out@),
        forall|t: int| !occurs_at(out@, SERVER_QWEN35_PREFIX.spec_bytes(), t),
        vstd::utf8::valid_utf8(json@) && (forall|t: int|
            !occurs_at(json@, SERVER_QWEN35_PREFIX.spec_bytes(), t)) ==> out@ == json@,
{
    let s = lossy_string(json);
    let bytes = s.as_str().as_bytes();
    let out = replace_bytes(bytes, SERVER_QWEN35_PREFIX.as_bytes(), CANONICAL_QWEN35_PREFIX.as_bytes());
    proof {
        assert(out@ == spec_normalize_pre_tokenizer(json@));
        lemma_normalized_has_no_server_prefix(json@);
        lemma_normalized_valid(json@);
        if vstd::utf8::valid_utf8(json@) && (forall|t: int|
            !occurs_at(json@, SERVER_QWEN35_PREFIX.spec_bytes(), t)) {
            vstd::utf8::decode_utf8_encode_utf8(json@);
            let pat = SERVER_QWEN35_PREFIX.spec_bytes();
            assert forall|j: int| 0 <= j && j + pat.len() <= json@.len() implies
                #[trigger] json@.subrange(j, j + pat.len()) != pat by {
                assert(!occurs_at(json@, pat, j));
            }
            lemma_replace_all_absent(json@, pat, CANONICAL_QWEN35_PREFIX.spec_bytes());
        }
    }
    out
}


/// Where `pat` does not occur from `i` on, replacing changes nothing there.
proof fn lemma_replace_from_absent(s: Seq<u8>, pat: Seq<u8>, rep: Seq<u8>, i: int)
    requires
        0 <= i <= s.len(),
        forall|j: int|
            i <= j && j + pat.len() <= s.len() ==> #[trigger] s.subrange(j, j + pat.len()) != pat,
    ensures
        replace_from(s, pat, rep, i) == s.subrange(i, s.len() as int),
    decreases s.len() - i,
{
    if i < s.len() {
        lemma_replace_from_absent(s, pat, rep, i + 1);
        assert(seq![s[i]] + s.subrange(i + 1, s.len() as int) =~= s.subrange(i, s.len() as int));
    } else {
        assert(s.subrange(i, s.len() as int) =~= seq![]);
    }
}

/// Only the spelling of the regex prefix is changed: text in which `pat`
/// does not occur comes back as it was.
pub proof fn lemma_replace_all_absent(s: Seq<u8>, pat: Seq<u8>, rep: Seq<u8>)
    requires
        forall|j: int|
            0 <= j && j + pat.len() <= s.len() ==> #[trigger] s.subrange(j, j + pat.len()) != pat,
    ensures
        replace_all(s, pat, rep) == s,
{
    lemma_replace_from_absent(s, pat, rep, 0);
    assert(s.subrange(0, s.len() as int) =~= s);
}


/// When the rest of a rewrite from `j` starts with the tail of `pat` from
/// index `k` on (`k >= 1`), that tail stands in the input at `j`: such a
/// tail holds no char that could begin `pat` or `rep`.
proof fn lemma_replaced_tail(s: Seq<u8>, pat: Seq<u8>, rep: Seq<u8>, j: int, k: int)
    requires
        1 <= k <= pat.len(),
        0 <= j <= s.len(),
        0 < rep.len(),
        rep[0] == pat[0],
        forall|x: int| 1 <= x < pat.len() ==> #[trigger] pat[x] != pat[0],
        replace_from(s, pat, rep, j).len() >= pat.len() - k,
        replace_from(s, pat, rep, j).subrange(0, pat.len() - k) == pat.subrange(k, pat.len() as int),
    ensures
        j + pat.len() - k <= s.len(),
        s.subrange(j, j + pat.len() - k) == pat.subrange(k, pat.len() as int),
    decreases pat.len() - k,
{
    let r = replace_from(s, pat, rep, j);
    if k < pat.len() {
        assert(r[0] == pat.subrange(k, pat.len() as int)[0]);
        assert(r[0] == pat[k]);
        if j >= s.len() {
            assert(r.len() == 0);
        }
        if pat.len() > 0 && j + pat.len() <= s.len() && s.subrange(j, j + pat.len()) == pat {
            assert(r[0] == rep[0]);
        }
        let r1 = replace_from(s, pat, rep, j + 1);
        assert(r == seq![s[j]] + r1);
        assert(r1.subrange(0, pat.len() - k - 1) =~= r.subrange(0, pat.len() - k).subrange(
            1,
            pat.len() - k,
        ));
        assert(r1.subrange(0, pat.len() - (k + 1)) =~= pat.subrange(k + 1, pat.len() as int));
        lemma_replaced_tail(s, pat, rep, j + 1, k + 1);
        assert(s.subrange(j, j + pat.len() - k) =~= seq![s[j]] + s.subrange(
            j + 1,
            j + 1 + pat.len() - (k + 1),
        ));
        assert(pat.subrange(k, pat.len() as int) =~= seq![pat[k]] + pat.subrange(
            k + 1,
            pat.len() as int,
        ));
    } else {
        assert(s.subrange(j, j) =~= pat.subrange(k, pat.len() as int));
    }
}

/// A rewrite from `i` on leaves no occurrence of `pat`, when neither the tail
/// of `pat` nor `rep` after its first char holds `pat`'s first char, and
/// `rep` differs from `pat` at some index `m`.
proof fn lemma_replace_from_clears(s: Seq<u8>, pat: Seq<u8>, rep: Seq<u8>, i: int, m: int)
    requires
        0 <= i <= s.len(),
        0 < rep.len(),
        rep[0] == pat[0],
        forall|x: int| 1 <= x < pat.len() ==> #[trigger] pat[x] != pat[0],
        forall|x: int| 1 <= x < rep.len() ==> #[trigger] rep[x] != pat[0],
        0 <= m < rep.len(),
        m < pat.len(),
        rep[m] != pat[m],
    ensures
        forall|t: int| !occurs_at(replace_from(s, pat, rep, i), pat, t),
    decreases s.len() - i,
{
    let r = replace_from(s, pat, rep, i);
    if i < s.len() {
        if i + pat.len() <= s.len() && s.subrange(i, i + pat.len()) == pat {
            lemma_replace_from_clears(s, pat, rep, i + pat.len(), m);
            let r1 = replace_from(s, pat, rep, i + pat.len());
            assert(r == rep + r1);
            assert forall|t: int| !occurs_at(r, pat, t) by {
                if occurs_at(r, pat, t) {
                    if t >= rep.len() {
                        assert(r1.subrange(t - rep.len(), t - rep.len() + pat.len()) =~= r.subrange(
                            t,
                            t + pat.len(),
                        ));
                        assert(occurs_at(r1, pat, t - rep.len()));
                    } else if t > 0 {
                        assert(r.subrange(t, t + pat.len())[0] == r[t]);
                        assert(r[t] == rep[t]);
                    } else {
                        assert(r.subrange(t, t + pat.len())[m] == r[m]);
                        assert(r[m] == rep[m]);
                    }
                }
            }
        } else {
            lemma_replace_from_clears(s, pat, rep, i + 1, m);
            let r1 = replace_from(s, pat, rep, i + 1);
            assert(r == seq![s[i]] + r1);
            assert forall|t: int| !occurs_at(r, pat, t) by {
                if occurs_at(r, pat, t) {
                    if t >= 1 {
                        assert(r1.subrange(t - 1, t - 1 + pat.len()) =~= r.subrange(
                            t,
                            t + pat.len(),
                        ));
                        assert(occurs_at(r1, pat, t - 1));
                    } else {
                        assert(r.subrange(0, pat.len() as int)[0] == s[i]);
                        assert(r1.subrange(0, pat.len() - 1) =~= r.subrange(0, pat.len() as int).subrange(
                            1,
                            pat.len() as int,
                        ));
                        assert(r1.subrange(0, pat.len() - 1) =~= pat.subrange(1, pat.len() as int));
                        lemma_replaced_tail(s, pat, rep, i + 1, 1);
                        assert(s.subrange(i, i + pat.len()) =~= seq![s[i]] + s.subrange(
                            i + 1,
                            i + 1 + pat.len() - 1,
                        ));
                        assert(pat =~= seq![pat[0]] + pat.subrange(1, pat.len() as int));
                    }
                }
            }
        }
    }
}

/// After normalizing, the server's spelling of the regex prefix occurs
/// nowhere in the text: every occurrence is rewritten, and no rewrite can
/// combine with the text around it into a new one.
pub proof fn lemma_normalized_has_no_server_prefix(json: Seq<u8>)
    ensures
        forall|t: int|
            !occurs_at(spec_normalize_pre_tokenizer(json), SERVER_QWEN35_PREFIX.spec_bytes(), t),
{
    reveal_strlit("(?:'[sS]|'[tT]|'[rR][eE]|'[vV][eE]|'[mM]|'[lL][lL]|'[dD])");
    reveal_strlit("(?i:'s|'t|'re|'ve|'m|'ll|'d)");
    let pat = SERVER_QWEN35_PREFIX.spec_bytes();
    let rep = CANONICAL_QWEN35_PREFIX.spec_bytes();
    broadcast use vstd::string::is_ascii_spec_bytes;
    assert(vstd::string::is_ascii(SERVER_QWEN35_PREFIX));
    assert(vstd::string::is_ascii(CANONICAL_QWEN35_PREFIX));
    assert(pat.len() == 57);
    assert(rep.len() == 28);
    assert(forall|x: int| 1 <= x < pat.len() ==> #[trigger] pat[x] != pat[0]);
    assert(forall|x: int| 1 <= x < rep.len() ==> #[trigger] rep[x] != pat[0]);
    assert(rep[0] == pat[0]);
    assert(rep[2] != pat[2]);
    let s = vstd::utf8::encode_utf8(utf8_lossy(json));
    lemma_replace_from_clears(s, pat, rep, 0, 2);
}


/// Every byte of `a` is ASCII.
pub open spec fn all_ascii(a: Seq<u8>) -> bool {
    forall|i: int| 0 <= i < a.len() ==> #[trigger] a[i] < 0x80
}

proof fn lemma_ascii_valid(a: Seq<u8>)
    requires
        all_ascii(a),
    ensures
        vstd::utf8::valid_utf8(a),
{
    assert forall|i: int| 0 <= i < a.len() implies #[trigger] vstd::utf8::is_leading_byte_width_1(
        a[i],
    ) by {
        assert(a[i] < 0x80);
    }
    assert(a.subrange(0, 0) =~= Seq::<u8>::empty());
    vstd::utf8::partial_valid_utf8_extend_ascii_block(a, 0, a.len() as int);
    assert(a.subrange(0, a.len() as int) =~= a);
}

proof fn lemma_ascii_strip(a: Seq<u8>, x: Seq<u8>)
    requires
        all_ascii(a),
        vstd::utf8::valid_utf8(a + x),
    ensures
        vstd::utf8::valid_utf8(x),
    decreases a.len(),
{
    if a.len() == 0 {
        assert(a + x =~= x);
    } else {
        let ax = a + x;
        assert(ax[0] == a[0]);
        assert(vstd::utf8::length_of_first_scalar(ax) == 1);
        assert(vstd::utf8::pop_first_scalar(ax) =~= a.drop_first() + x);
        lemma_ascii_strip(a.drop_first(), x);
    }
}

/// Before the first match at or after `i` (none below `k`), a rewrite copies
/// the input as it is.
proof fn lemma_replace_copies(s: Seq<u8>, pat: Seq<u8>, rep: Seq<u8>, i: int, k: int)
    requires
        0 <= i <= k <= s.len(),
        pat.len() > 0,
        forall|x: int|
            i <= x < k ==> !(x + pat.len() <= s.len() && #[trigger] s.subrange(x, x + pat.len())
                == pat),
    ensures
        replace_from(s, pat, rep, i) == s.subrange(i, k) + replace_from(s, pat, rep, k),
    decreases k - i,
{
    if i < k {
        lemma_replace_copies(s, pat, rep, i + 1, k);
        assert(s.subrange(i, k) =~= seq![s[i]] + s.subrange(i + 1, k));
    } else {
        assert(s.subrange(i, k) =~= Seq::<u8>::empty());
    }
}

/// Rewriting ASCII for ASCII keeps UTF-8 valid.
proof fn lemma_replace_from_valid(s: Seq<u8>, pat: Seq<u8>, rep: Seq<u8>, i: int)
    requires
        0 <= i <= s.len(),
        vstd::utf8::valid_utf8(s.subrange(i, s.len() as int)),
        pat.len() > 0,
        all_ascii(pat),
        all_ascii(rep),
    ensures
        vstd::utf8::valid_utf8(replace_from(s, pat, rep, i)),
    decreases s.len() - i,
{
    let t = s.subrange(i, s.len() as int);
    if i < s.len() {
        if i + pat.len() <= s.len() && s.subrange(i, i + pat.len()) == pat {
            assert(t =~= pat + s.subrange(i + pat.len(), s.len() as int));
            lemma_ascii_strip(pat, s.subrange(i + pat.len(), s.len() as int));
            lemma_replace_from_valid(s, pat, rep, i + pat.len());
            lemma_ascii_valid(rep);
            vstd::utf8::valid_utf8_concat(rep, replace_from(s, pat, rep, i + pat.len()));
        } else {
            let w = vstd::utf8::length_of_first_scalar(t);
            assert(vstd::utf8::valid_first_scalar(t));
            assert(1 <= w <= 4 && w <= t.len());
            assert forall|x: int|
                i <= x < i + w implies !(x + pat.len() <= s.len() && #[trigger] s.subrange(
                    x,
                    x + pat.len(),
                ) == pat) by {
                if x > i && x + pat.len() <= s.len() && s.subrange(x, x + pat.len()) == pat {
                    assert(s.subrange(x, x + pat.len())[0] == s[x]);
                    assert(s[x] == t[x - i]);
                    assert(pat[0] < 0x80);
                }
            }
            lemma_replace_copies(s, pat, rep, i, i + w);
            assert(vstd::utf8::is_char_boundary(t, w)) by {
                assert(vstd::utf8::valid_utf8(vstd::utf8::pop_first_scalar(t)));
                assert(vstd::utf8::is_char_boundary(vstd::utf8::pop_first_scalar(t), 0));
            }
            vstd::utf8::valid_utf8_split(t, w);
            assert(t.subrange(0, w) =~= s.subrange(i, i + w));
            assert(t.subrange(w, t.len() as int) =~= s.subrange(i + w, s.len() as int));
            lemma_replace_from_valid(s, pat, rep, i + w);
            vstd::utf8::valid_utf8_concat(s.subrange(i, i + w), replace_from(s, pat, rep, i + w));
        }
    }
}

/// The normalized text is valid UTF-8: the lossy decoding re-encoded is,
/// and rewriting one ASCII spelling for another keeps it so.
proof fn lemma_normalized_valid(json: Seq<u8>)
    ensures
        vstd::utf8::valid_utf8(spec_normalize_pre_tokenizer(json)),
{
    reveal_strlit("(?:'[sS]|'[tT]|'[rR][eE]|'[vV][eE]|'[mM]|'[lL][lL]|'[dD])");
    reveal_strlit("(?i:'s|'t|'re|'ve|'m|'ll|'d)");
    let pat = SERVER_QWEN35_PREFIX.spec_bytes();
    let rep = CANONICAL_QWEN35_PREFIX.spec_bytes();
    broadcast use vstd::string::is_ascii_spec_bytes;
    assert(vstd::string::is_ascii(SERVER_QWEN35_PREFIX));
    assert(vstd::string::is_ascii(CANONICAL_QWEN35_PREFIX));
    assert(all_ascii(pat));
    assert(all_ascii(rep));
    let s = vstd::utf8::encode_utf8(utf8_lossy(json));
    vstd::utf8::encode_utf8_valid_utf8(utf8_lossy(json));
    assert(s.subrange(0, s.len() as int) =~= s);
    lemma_replace_from_valid(s, pat, rep, 0);
}

} // verus!
