use gigatoken_addon::bpe::BpeTokenizer;
use gigatoken_addon::gguf::Vocab;
use gigatoken_addon::gtffi::GtError;
use gigatoken_addon::{GigatokenEncoder, Tokenizer};

fn vocab(tokens: &[&str], merges: &[(&str, &str)]) -> Vocab {
    let mut v = Vocab::empty();
    v.tokens = tokens.iter().map(|t| t.as_bytes().to_vec()).collect();
    v.merges = merges
        .iter()
        .map(|(l, r)| (l.as_bytes().to_vec(), r.as_bytes().to_vec()))
        .collect();
    v
}

fn abc() -> BpeTokenizer {
    BpeTokenizer::new(&vocab(
        &["a", "b", "c", "ab", "bc", "abc"],
        &[("a", "b"), ("b", "c"), ("ab", "c")],
    ))
}

#[test]
fn merges_down_to_one_token() {
    let t = abc();
    assert_eq!(t.encode(b"abc"), vec![5]);
    assert_eq!(t.encode(b"bc"), vec![4]);
    assert_eq!(t.encode(b"cab"), vec![2, 3]);
}

#[test]
fn empty_text_has_no_ids() {
    assert_eq!(abc().encode(b""), Vec::<u32>::new());
}

#[test]
fn unknown_bytes_become_id_zero() {
    assert_eq!(abc().encode(b"abd"), vec![3, 0]);
    assert_eq!(abc().encode(b"zz"), vec![0, 0]);
}

#[test]
fn vocab_size_counts_tokens() {
    assert_eq!(abc().vocab_size(), 6);
}

#[test]
fn lowest_rank_merge_wins() {
    // rank 0 is b+c (-> 4), rank 1 is a+b (-> 3)
    let t = BpeTokenizer::new(&vocab(&["a", "b", "c", "ab", "bc"], &[("b", "c"), ("a", "b")]));
    assert_eq!(t.encode(b"abc"), vec![0, 4]);
    // rank 0 is y+z (-> 4), rank 1 is x+y (-> 0)
    let t = BpeTokenizer::new(&vocab(&["xy", "x", "y", "z", "yz"], &[("y", "z"), ("x", "y")]));
    assert_eq!(t.encode(b"xyz"), vec![1, 4]);
}

#[test]
fn leftmost_pair_wins_a_tie() {
    let t = BpeTokenizer::new(&vocab(&["a", "aa"], &[("a", "a")]));
    assert_eq!(t.encode(b"aaa"), vec![1, 0]);
    assert_eq!(t.encode(b"aaaa"), vec![1, 1]);
}

#[test]
fn unresolvable_merges_are_dropped() {
    // "b c" has no merged token, "q r" has no sides.
    let t = BpeTokenizer::new(&vocab(&["a", "b", "c", "ab"], &[("b", "c"), ("q", "r"), ("a", "b")]));
    assert_eq!(t.encode(b"abc"), vec![3, 2]);
}

#[test]
fn duplicate_byte_tokens_use_the_lowest_id() {
    let t = BpeTokenizer::new(&vocab(&["z", "q", "q"], &[]));
    assert_eq!(t.encode(b"qzq"), vec![1, 0, 1]);
}

#[test]
fn encoding_its_own_output_changes_nothing() {
    // A merge-free result stays as it is: encode "cab" -> [2, 3]; "c" then "ab".
    let t = abc();
    let ids = t.encode(b"cab");
    assert_eq!(ids, vec![2, 3]);
    // no merge joins 2 and 3, so the pair is final
    assert_eq!(t.encode(b"c"), vec![2]);
    assert_eq!(t.encode(b"ab"), vec![3]);
}

struct FakeGt {
    fail: bool,
}

impl GigatokenEncoder for FakeGt {
    fn encode(&self, text: &[u8]) -> Result<Vec<u32>, GtError> {
        if self.fail {
            Err(GtError("boom".to_string()))
        } else {
            Ok(text.iter().map(|b| *b as u32 + 1000).collect())
        }
    }
}

#[test]
fn tokenizer_prefers_gigatoken() {
    let v = vocab(&["a", "b", "ab"], &[("a", "b")]);
    let t = Tokenizer::from_vocab(&v, Ok(FakeGt { fail: false })).ok().unwrap();
    assert!(matches!(t, Tokenizer::Gigatoken(_)));
    assert_eq!(t.encode(b"ab"), vec![1097, 1098]);
}

#[test]
fn tokenizer_falls_back_to_bpe() {
    let v = vocab(&["a", "b", "ab"], &[("a", "b")]);
    let t = Tokenizer::<FakeGt>::from_vocab(&v, Err(GtError("no lib".to_string()))).ok().unwrap();
    assert!(matches!(t, Tokenizer::Bpe(_)));
    assert_eq!(t.encode(b"ab"), vec![2]);
}

#[test]
fn failed_gigatoken_encoding_gives_no_ids() {
    let v = vocab(&["a"], &[]);
    let t = Tokenizer::from_vocab(&v, Ok(FakeGt { fail: true })).ok().unwrap();
    assert_eq!(t.encode(b"a"), Vec::<u32>::new());
}

#[test]
fn token_texts_spell_the_input_again() {
    let texts = ["a", "b", "c", "ab", "bc", "abc"];
    let t = abc();
    for input in ["abc", "cabbca", "bbb", "aabcc", ""] {
        let ids = t.encode(input.as_bytes());
        let spelled: String = ids.iter().map(|&i| texts[i as usize]).collect();
        assert_eq!(spelled, input);
    }
}
