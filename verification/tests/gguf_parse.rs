use gigatoken_addon::gguf::{parse_bytes, parse_vocab, GgufFault};

fn put_str(out: &mut Vec<u8>, s: &[u8]) {
    out.extend_from_slice(&(s.len() as u64).to_le_bytes());
    out.extend_from_slice(s);
}

fn header(n_kv: i64) -> Vec<u8> {
    let mut out = b"GGUF".to_vec();
    out.extend_from_slice(&3u32.to_le_bytes());
    out.extend_from_slice(&0i64.to_le_bytes());
    out.extend_from_slice(&n_kv.to_le_bytes());
    out
}

fn kv_str_array(out: &mut Vec<u8>, key: &[u8], items: &[&[u8]]) {
    put_str(out, key);
    out.extend_from_slice(&9i32.to_le_bytes());
    out.extend_from_slice(&8i32.to_le_bytes());
    out.extend_from_slice(&(items.len() as u64).to_le_bytes());
    for it in items {
        put_str(out, it);
    }
}

fn kv_u32_array(out: &mut Vec<u8>, key: &[u8], elem: i32, items: &[u32]) {
    put_str(out, key);
    out.extend_from_slice(&9i32.to_le_bytes());
    out.extend_from_slice(&elem.to_le_bytes());
    out.extend_from_slice(&(items.len() as u64).to_le_bytes());
    for it in items {
        out.extend_from_slice(&it.to_le_bytes());
    }
}

fn kv_u32(out: &mut Vec<u8>, key: &[u8], v: u32) {
    put_str(out, key);
    out.extend_from_slice(&4i32.to_le_bytes());
    out.extend_from_slice(&v.to_le_bytes());
}

fn sample() -> Vec<u8> {
    let mut b = header(9);
    put_str(&mut b, b"general.architecture");
    b.extend_from_slice(&8i32.to_le_bytes());
    put_str(&mut b, b"qwen35");
    put_str(&mut b, b"tokenizer.ggml.model");
    b.extend_from_slice(&8i32.to_le_bytes());
    put_str(&mut b, b"gpt2");
    put_str(&mut b, b"tokenizer.ggml.pre");
    b.extend_from_slice(&8i32.to_le_bytes());
    put_str(&mut b, b"qwen35");
    kv_str_array(&mut b, b"tokenizer.ggml.tokens", &[b"a", b"", b"b", b"ab"]);
    kv_u32_array(&mut b, b"tokenizer.ggml.token_type", 4, &[1, 3, 6, 1]);
    kv_u32_array(&mut b, b"tokenizer.ggml.scores", 6, &[0.5f32.to_bits(), 1.0f32.to_bits()]);
    kv_str_array(&mut b, b"tokenizer.ggml.merges", &[b"a b", b" x", b"nospace", b"c d e"]);
    kv_u32(&mut b, b"tokenizer.ggml.eos_token_id", 7);
    put_str(&mut b, b"tokenizer.ggml.add_bos_token");
    b.extend_from_slice(&7i32.to_le_bytes());
    b.push(1);
    b
}

#[test]
fn parses_tokenizer_metadata() {
    let v = parse_bytes(&sample()).ok().unwrap();
    assert_eq!(v.model, "gpt2");
    assert_eq!(v.pre, "qwen35");
    assert_eq!(v.tokens, vec![b"a".to_vec(), b"[EMPTY_1]".to_vec(), b"b".to_vec(), b"ab".to_vec()]);
    assert_eq!(v.token_types, vec![1, 3, 6, 1]);
    assert_eq!(v.score_bits, vec![0.5f32.to_bits(), 1.0f32.to_bits()]);
    assert_eq!(
        v.merges,
        vec![
            (b"a".to_vec(), b"b".to_vec()),
            (b" x".to_vec(), Vec::new()),
            (b"nospace".to_vec(), Vec::new()),
            (b"c".to_vec(), b"d e".to_vec()),
        ]
    );
    assert_eq!(v.eos_id, Some(7));
    assert_eq!(v.bos_id, None);
    assert_eq!(v.pad_id, None);
    assert_eq!(v.unknown_id, None);
    assert!(v.add_bos);
}

#[test]
fn trailing_bytes_are_never_read() {
    let full = sample();
    let mut longer = full.clone();
    longer.extend_from_slice(&[0xde, 0xad, 0xbe, 0xef]);
    let a = parse_bytes(&full).ok().unwrap();
    let b = parse_bytes(&longer).ok().unwrap();
    assert_eq!(a.tokens, b.tokens);
    assert_eq!(a.merges, b.merges);
}

#[test]
fn every_truncation_runs_out_of_input() {
    let full = sample();
    for n in 0..full.len() {
        match parse_vocab(&full[..n]) {
            Err(f) => assert_eq!(f, GgufFault::Eof, "prefix of {n} bytes"),
            Ok(_) => panic!("prefix of {n} bytes parsed"),
        }
    }
}

#[test]
fn bad_magic_is_reported() {
    let mut b = sample();
    b[0] = b'X';
    let e = parse_bytes(&b).err().unwrap();
    assert_eq!(e.0, "bad magic");
}

#[test]
fn short_input_is_end_of_file() {
    let e = parse_bytes(b"GG").err().unwrap();
    assert_eq!(e.0, "unexpected end of file");
    let e = parse_bytes(b"GGUF\x03\x00").err().unwrap();
    assert_eq!(e.0, "unexpected end of file");
}

#[test]
fn tokens_must_be_strings() {
    let mut b = header(1);
    kv_u32_array(&mut b, b"tokenizer.ggml.tokens", 4, &[1, 2]);
    let e = parse_bytes(&b).err().unwrap();
    assert_eq!(e.0, "tokenizer.ggml.tokens is not an array of strings");
}

#[test]
fn merges_must_be_strings() {
    let mut b = header(1);
    kv_u32_array(&mut b, b"tokenizer.ggml.merges", 5, &[1]);
    let e = parse_bytes(&b).err().unwrap();
    assert_eq!(e.0, "tokenizer.ggml.merges is not an array of strings");
}

#[test]
fn unknown_value_type_is_rejected() {
    let mut b = header(1);
    put_str(&mut b, b"some.key");
    b.extend_from_slice(&13i32.to_le_bytes());
    let e = parse_bytes(&b).err().unwrap();
    assert_eq!(e.0, "unknown gguf type");
}

#[test]
fn other_values_are_skipped() {
    let mut b = header(7);
    // u8, u16, u32, u64, a string array, an array of u16 and an array of u64.
    put_str(&mut b, b"k.u8");
    b.extend_from_slice(&0i32.to_le_bytes());
    b.push(9);
    put_str(&mut b, b"k.i16");
    b.extend_from_slice(&3i32.to_le_bytes());
    b.extend_from_slice(&[1, 2]);
    put_str(&mut b, b"k.f32");
    b.extend_from_slice(&6i32.to_le_bytes());
    b.extend_from_slice(&[1, 2, 3, 4]);
    put_str(&mut b, b"k.u64");
    b.extend_from_slice(&10i32.to_le_bytes());
    b.extend_from_slice(&[0; 8]);
    kv_str_array(&mut b, b"k.strs", &[b"x", b"yy"]);
    put_str(&mut b, b"k.u16s");
    b.extend_from_slice(&9i32.to_le_bytes());
    b.extend_from_slice(&2i32.to_le_bytes());
    b.extend_from_slice(&3u64.to_le_bytes());
    b.extend_from_slice(&[0; 6]);
    put_str(&mut b, b"k.f64s");
    b.extend_from_slice(&9i32.to_le_bytes());
    b.extend_from_slice(&12i32.to_le_bytes());
    b.extend_from_slice(&1u64.to_le_bytes());
    b.extend_from_slice(&[0; 8]);
    // then the one key we read
    let mut tail = Vec::new();
    kv_u32(&mut tail, b"tokenizer.ggml.bos_token_id", 42);
    let mut b2 = b.clone();
    b2[16..24].copy_from_slice(&8i64.to_le_bytes());
    b2.extend_from_slice(&tail);
    let v = parse_bytes(&b2).ok().unwrap();
    assert_eq!(v.bos_id, Some(42));
    // and without that key the skipped values leave an empty vocabulary
    let v = parse_bytes(&b).ok().unwrap();
    assert!(v.tokens.is_empty());
    assert_eq!(v.bos_id, None);
}

#[test]
fn negative_kv_count_reads_nothing() {
    let b = header(-5);
    let v = parse_bytes(&b).ok().unwrap();
    assert!(v.tokens.is_empty());
    assert_eq!(v.model, "");
}

#[test]
fn invalid_utf8_model_name_is_replaced() {
    let mut b = header(1);
    put_str(&mut b, b"tokenizer.ggml.model");
    b.extend_from_slice(&8i32.to_le_bytes());
    put_str(&mut b, b"gp\xfft2");
    let v = parse_bytes(&b).ok().unwrap();
    assert_eq!(v.model, "gp\u{fffd}t2");
}

#[test]
fn text_index_gives_lowest_id() {
    let mut b = header(1);
    kv_str_array(&mut b, b"tokenizer.ggml.tokens", &[b"x", b"y", b"x", b""]);
    let v = parse_bytes(&b).ok().unwrap();
    let idx = v.text_to_id();
    assert_eq!(idx.get(b"x"), Some(0));
    assert_eq!(idx.get(b"y"), Some(1));
    assert_eq!(idx.get(b"[EMPTY_3]"), Some(3));
    assert_eq!(idx.get(b""), None);
    assert_eq!(idx.get(b"z"), None);
}

#[test]
fn inserted_unknown_key_changes_nothing() {
    // The sample's first pair, then an extra pair whose key is not a
    // tokenizer key, then the rest; the header counts one more pair.
    let full = sample();
    // Step over the first pair: its key, its type and its string value.
    let mut cut = 24;
    let n = u64::from_le_bytes(full[cut..cut + 8].try_into().unwrap()) as usize;
    cut += 8 + n + 4;
    let n = u64::from_le_bytes(full[cut..cut + 8].try_into().unwrap()) as usize;
    cut += 8 + n;
    let mut extra = Vec::new();
    kv_u32_array(&mut extra, b"general.tags", 5, &[1, 2, 3]);
    let mut b = header(10);
    b.extend_from_slice(&full[24..cut]);
    b.extend_from_slice(&extra);
    b.extend_from_slice(&full[cut..]);
    let a = parse_bytes(&full).ok().unwrap();
    let c = parse_bytes(&b).ok().unwrap();
    assert_eq!(a.model, c.model);
    assert_eq!(a.pre, c.pre);
    assert_eq!(a.tokens, c.tokens);
    assert_eq!(a.merges, c.merges);
    assert_eq!(a.token_types, c.token_types);
    assert_eq!(a.score_bits, c.score_bits);
    assert_eq!(a.eos_id, c.eos_id);
    assert_eq!(a.add_bos, c.add_bos);
}
