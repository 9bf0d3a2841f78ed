use render3d::llm::arch::{build_layers, estimate_vram_bytes, ArchFamily, ArchSpec};
use render3d::llm::catalog::LayerKind;
use render3d::llm::network::{layer_ends, sample_indices, NodeRole};
use render3d::llm::tokenizer::{djb2, Tokenizer};

#[test]
fn detects_llama_from_arch_str() {
    assert_eq!(ArchFamily::detect("llama", ""), ArchFamily::Llama);
    assert_eq!(ArchFamily::detect("mistral", ""), ArchFamily::Mistral);
    assert_eq!(ArchFamily::detect("gemma", ""), ArchFamily::Gemma);
}

#[test]
fn detects_from_model_name() {
    assert_eq!(ArchFamily::detect("", "mistral-7b-v0.1"), ArchFamily::Mistral);
    assert_eq!(ArchFamily::detect("", "phi-2"), ArchFamily::Phi);
    assert_eq!(ArchFamily::detect("", "codellama-13b"), ArchFamily::Llama);
}

#[test]
fn default_for_produces_valid_spec() {
    let spec = ArchSpec::default_for(ArchFamily::Llama);
    assert!(spec.n_layers > 0);
    assert!(spec.ffn_size > spec.hidden_size);
}

#[test]
fn known_words_map_to_their_index() {
    let vocab = vec!["hello".into(), "world".into(), "<unk>".into()];
    let tok = Tokenizer::from_vocab(vocab);
    assert_eq!(tok.encode("hello world"), vec![0, 1]);
}

#[test]
fn decode_reverses_encode_for_known_words() {
    let vocab = vec!["a".into(), "b".into(), "c".into()];
    let tok = Tokenizer::from_vocab(vocab);
    let ids = tok.encode("a b c");
    assert_eq!(tok.decode(&ids), "a b c");
}

#[test]
fn unknown_word_hashes_into_vocab_range() {
    let vocab: Vec<String> = (0..256).map(|i| format!("tok{i}")).collect();
    let tok = Tokenizer::from_vocab(vocab.clone());
    let ids = tok.encode("zzz_unknown");
    assert_eq!(ids.len(), 1);
    assert!((ids[0] as usize) < vocab.len());
}

use render3d::llm::catalog::NetArch;
use render3d::llm::gguf::{model_info, parse_gguf, GgufError, GgufReader, GgufValue};

#[test]
fn labels_and_groups_are_unique_and_populated() {
    for arch in NetArch::ALL {
        assert!(!arch.label().is_empty());
        assert!(!arch.group().is_empty());
    }
    for (i, a) in NetArch::ALL.iter().enumerate() {
        for b in &NetArch::ALL[i + 1..] {
            assert_ne!(a.label(), b.label());
        }
    }
}

#[test]
fn gguf_wrong_magic_is_rejected() {
    let bad = [0u8; 32];
    assert!(parse_gguf(&bad).is_err());
    assert_eq!(parse_gguf(&bad).unwrap_err(), GgufError::BadMagic(0));
}

fn gguf_string(out: &mut Vec<u8>, s: &str) {
    out.extend_from_slice(&(s.len() as u64).to_le_bytes());
    out.extend_from_slice(s.as_bytes());
}

fn small_gguf() -> Vec<u8> {
    let mut d = Vec::new();
    d.extend_from_slice(b"GGUF");
    d.extend_from_slice(&3u32.to_le_bytes());
    d.extend_from_slice(&1u64.to_le_bytes()); // tensors
    d.extend_from_slice(&3u64.to_le_bytes()); // metadata entries
    gguf_string(&mut d, "general.architecture");
    d.extend_from_slice(&8u32.to_le_bytes());
    gguf_string(&mut d, "mistral");
    gguf_string(&mut d, "mistral.block_count");
    d.extend_from_slice(&4u32.to_le_bytes());
    d.extend_from_slice(&32u32.to_le_bytes());
    gguf_string(&mut d, "tokenizer.ggml.tokens");
    d.extend_from_slice(&9u32.to_le_bytes());
    d.extend_from_slice(&8u32.to_le_bytes());
    d.extend_from_slice(&2u64.to_le_bytes());
    gguf_string(&mut d, "a");
    gguf_string(&mut d, "b");
    gguf_string(&mut d, "blk.0.attn_q.weight");
    d.extend_from_slice(&2u32.to_le_bytes());
    d.extend_from_slice(&4096u64.to_le_bytes());
    d.extend_from_slice(&4096u64.to_le_bytes());
    d.extend_from_slice(&0u32.to_le_bytes());
    d.extend_from_slice(&0u64.to_le_bytes());
    d
}

#[test]
fn gguf_metadata_and_tensors_are_read() {
    let f = parse_gguf(&small_gguf()).unwrap();
    assert_eq!(f.kv.len(), 3);
    assert_eq!(f.tensors, vec![("blk.0.attn_q.weight".to_string(), vec![4096, 4096])]);
    let info = model_info(&f);
    assert_eq!(info.arch, "mistral");
    assert_eq!(info.name, "mistral");
    assert_eq!(info.vocab, vec!["a".to_string(), "b".to_string()]);
    assert_eq!(info.numeric, vec![("mistral.block_count".to_string(), 32)]);
}

#[test]
fn gguf_truncated_file_reports_where_it_ended() {
    let d = small_gguf();
    let cut = &d[..d.len() - 3];
    assert!(matches!(parse_gguf(cut), Err(GgufError::UnexpectedEnd { .. })));
    let mut bad_ver = d.clone();
    bad_ver[4] = 9;
    assert_eq!(parse_gguf(&bad_ver).unwrap_err(), GgufError::BadVersion(9));
}

#[test]
fn gguf_reader_reads_little_endian_values() {
    let data = [1u8, 2, 3, 4, 5, 6, 7, 8, 9];
    let mut r = GgufReader::new(&data);
    assert_eq!(r.read_u8().unwrap(), 1);
    assert_eq!(r.read_u16().unwrap(), 0x0302);
    assert_eq!(r.read_u32().unwrap(), 0x0706_0504);
    assert!(r.read_u64().is_err());
    assert_eq!(r.read_bytes(2).unwrap(), &[8, 9]);
    assert!(r.read_u8().is_err());
    let mut s = Vec::new();
    gguf_string(&mut s, "héllo");
    let mut r = GgufReader::new(&s);
    assert_eq!(r.read_string().unwrap(), "héllo");
    let mut b = GgufReader::new(&[1u8]);
    assert!(matches!(b.read_value(7).unwrap(), GgufValue::Bool(true)));
    assert_eq!(GgufReader::new(&[0u8; 4]).read_value(13).unwrap_err(), GgufError::UnknownValueType(13));
}

#[test]
fn duplicate_words_map_to_their_last_index() {
    let tok = Tokenizer::from_vocab(vec!["w".into(), "v".into(), "w".into()]);
    assert_eq!(tok.encode("w v"), vec![2, 1]);
}

#[test]
fn unknown_words_decode_to_the_unknown_token() {
    let tok = Tokenizer::from_vocab(vec!["x".into(), "<unk>".into()]);
    assert_eq!(tok.vocab_size(), 2);
    assert_eq!(tok.encode("  x   x "), vec![0, 0]);
    assert_eq!(tok.decode(&[0, 7, 1]), "x <unk>");
}

#[test]
fn djb2_hashes_bytes_from_5381() {
    assert_eq!(djb2(""), 5381);
    assert_eq!(djb2("a"), 5381 * 33 + 97);
    assert_eq!(djb2("é"), (5381u32.wrapping_mul(33).wrapping_add(0xC3)).wrapping_mul(33).wrapping_add(0xA9));
}

#[test]
fn unknown_word_lands_in_its_hash_bucket() {
    let vocab: Vec<String> = (0..7).map(|i| format!("t{i}")).collect();
    let tok = Tokenizer::from_vocab(vocab);
    assert_eq!(tok.encode("zzz"), vec![djb2("zzz") % 7]);
}

#[test]
fn model_vocabulary_gives_a_tokenizer_when_present() {
    assert!(Tokenizer::for_model(Vec::new()).is_none());
    let t = Tokenizer::for_model(vec!["hello".to_string(), "world".to_string()]).unwrap();
    assert_eq!(t.vocab, vec!["hello".to_string(), "world".to_string()]);
    assert_eq!(t.vocab_size(), 2);
}

fn mistral_block() -> ArchSpec {
    ArchSpec { family: ArchFamily::Mistral, n_layers: 1, hidden_size: 4096, n_heads: 32, n_kv_heads: 8, ffn_size: 14336 }
}

#[test]
fn gqa_nodes_have_mixed_weights() {
    let spec = mistral_block();
    let layers = build_layers(&spec);
    let nodes = &layers[1].nodes;
    assert_eq!(nodes.len(), 32);
    // Every 4th node is a KV head, drawn smaller than a query head.
    assert_eq!(nodes[0], NodeRole::KeyValue);
    assert_eq!(nodes[1], NodeRole::Query);
    assert_eq!(nodes[4], NodeRole::KeyValue);
}

#[test]
fn layer_plan_has_embedding_three_layers_per_block_and_output() {
    let mut spec = mistral_block();
    spec.n_layers = 2;
    let layers = build_layers(&spec);
    assert_eq!(layers.len(), 8);
    let names: Vec<&str> = layers.iter().map(|l| l.name.as_str()).collect();
    assert_eq!(
        names,
        vec!["Embedding", "Block 0 \u{b7} Attn", "Block 0 \u{b7} LN", "Block 0 \u{b7} FFN", "Block 1 \u{b7} Attn", "Block 1 \u{b7} LN", "Block 1 \u{b7} FFN", "Output"]
    );
    assert_eq!(layers[0].kind, LayerKind::Embedding);
    assert_eq!(layers[2].kind, LayerKind::LayerNorm);
    assert_eq!(layers[3].kind, LayerKind::FeedForward);
    assert_eq!(layers[7].kind, LayerKind::Output);
    assert_eq!(layers[0].nodes.len(), 64);
    assert_eq!(layers[2].nodes.len(), 64);
    assert!(layers[3].nodes.iter().all(|r| *r == NodeRole::FeedForward));
    let small = ArchSpec { family: ArchFamily::Unknown, n_layers: 1, hidden_size: 64, n_heads: 4, n_kv_heads: 4, ffn_size: 10 };
    let small_layers = build_layers(&small);
    assert_eq!(small_layers[2].nodes.len(), 4);
    assert_eq!(small_layers[3].nodes.len(), 10);
    assert!(small_layers[1].nodes.iter().all(|r| *r == NodeRole::Head));
}

#[test]
fn vram_estimate_counts_embedding_and_blocks() {
    assert_eq!(estimate_vram_bytes(&mistral_block()), Some(698_368_000));
    let mut none = mistral_block();
    none.n_layers = 0;
    assert_eq!(estimate_vram_bytes(&none), Some(262_144_000));
    let huge = ArchSpec { family: ArchFamily::Unknown, n_layers: 1, hidden_size: 1 << 40, n_heads: 1, n_kv_heads: 1, ffn_size: 1 };
    assert_eq!(estimate_vram_bytes(&huge), None);
}

#[test]
fn node_sampling_strides_over_long_weight_lists() {
    assert_eq!(sample_indices(3), vec![0, 1, 2]);
    let long = sample_indices(200);
    assert_eq!(long.len(), 64);
    assert_eq!(long[0], 0);
    assert_eq!(long[1], 3);
    assert_eq!(long[63], 189);
    assert_eq!(sample_indices(64).len(), 64);
}

#[test]
fn layer_ends_accumulate_node_counts() {
    assert_eq!(layer_ends(&[4, 0, 3]), vec![4, 4, 7]);
    assert!(layer_ends(&[]).is_empty());
}
