use gigatoken_addon::c_string_copy_len;
use gigatoken_addon::gguf::Vocab;
use gigatoken_addon::gtffi::{
    build_tables, gt_token_type, GtLlamaMerge, GT_LLAMA_TOKEN_TYPE_BYTE,
    GT_LLAMA_TOKEN_TYPE_NORMAL, GT_LLAMA_TOKEN_TYPE_SPECIAL,
};

#[test]
fn token_types_map_to_gt_enum() {
    assert_eq!(gt_token_type(6), GT_LLAMA_TOKEN_TYPE_BYTE);
    assert_eq!(gt_token_type(1), GT_LLAMA_TOKEN_TYPE_NORMAL);
    assert_eq!(gt_token_type(3), GT_LLAMA_TOKEN_TYPE_SPECIAL);
    assert_eq!(gt_token_type(0), GT_LLAMA_TOKEN_TYPE_SPECIAL);
    assert_eq!(gt_token_type(u32::MAX), GT_LLAMA_TOKEN_TYPE_SPECIAL);
}

#[test]
fn tables_carry_texts_scores_and_types() {
    let mut v = Vocab::empty();
    v.tokens = vec![b"a".to_vec(), b"b".to_vec(), b"ab".to_vec()];
    v.token_types = vec![6, 3];
    v.score_bits = vec![1.5f32.to_bits()];
    v.merges = vec![
        (b"a".to_vec(), b"b".to_vec()),
        (Vec::new(), b"b".to_vec()),
        (b"a".to_vec(), b"zz".to_vec()),
        (b"b".to_vec(), b"a".to_vec()),
        (b"a".to_vec(), b"b".to_vec()),
    ];
    let (tokens, merges) = build_tables(&v);
    assert_eq!(tokens.len(), 3);
    assert_eq!(tokens[0].text, b"a".to_vec());
    assert_eq!(tokens[0].score_bits, 1.5f32.to_bits());
    assert_eq!(tokens[0].token_type, GT_LLAMA_TOKEN_TYPE_BYTE);
    assert_eq!(tokens[1].score_bits, 0);
    assert_eq!(tokens[1].token_type, GT_LLAMA_TOKEN_TYPE_SPECIAL);
    assert_eq!(tokens[2].text, b"ab".to_vec());
    assert_eq!(tokens[2].token_type, GT_LLAMA_TOKEN_TYPE_NORMAL);
    assert_eq!(
        merges,
        vec![
            GtLlamaMerge { left: 0, right: 1, merged: 2, rank: 0 },
            GtLlamaMerge { left: 0, right: 1, merged: 2, rank: 4 },
        ]
    );
}

#[test]
fn c_buffer_keeps_room_for_nul() {
    assert_eq!(c_string_copy_len(10, 0), 0);
    assert_eq!(c_string_copy_len(10, 1), 0);
    assert_eq!(c_string_copy_len(10, 5), 4);
    assert_eq!(c_string_copy_len(3, 5), 3);
    assert_eq!(c_string_copy_len(4, 5), 4);
}

#[test]
fn errors_display_with_their_prefix() {
    let e = gigatoken_addon::gtffi::GtError("no library".to_string());
    assert_eq!(e.to_string(), "gigatoken: no library");
    let e = gigatoken_addon::gguf::GgufError("bad magic".to_string());
    assert_eq!(e.to_string(), "gguf: bad magic");
}
