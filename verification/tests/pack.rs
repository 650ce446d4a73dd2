use ic_laya_core::pack::{
    canonical, check_tensor_bytes, expected_encoding, expected_length, numel, Encoding, ExpectedTensor, Manifest, TensorEntry, FORMAT,
};
use ic_laya_core::types::{hash, Error};

fn expected() -> Vec<ExpectedTensor> {
    vec![
        ExpectedTensor { name: "embeddings.weight".into(), shape: vec![8, 4] },
        ExpectedTensor { name: "embeddings.norm.weight".into(), shape: vec![4] },
        ExpectedTensor { name: "encoder.0.qkv.weight".into(), shape: vec![12, 4] },
    ]
}

fn entry(name: &str, shape: Vec<usize>, encoding: Encoding, offset: u64, length: u64) -> TensorEntry {
    TensorEntry { name: name.into(), shape, encoding, offset, length, sha256: [0; 32] }
}

fn manifest() -> Manifest {
    Manifest {
        format: FORMAT.into(),
        source_repo: "example/verdict".into(),
        source_revision: "0123456789abcdef0123456789ABCDEF01234567".into(),
        test_only: false,
        tokenizer_sha256: [1; 32],
        total_bytes: 8 * 4 + 32 + 16 + 12 * 4 + 48,
        tensors: vec![
            entry("embeddings.weight", vec![8, 4], Encoding::I8RowSymmetric, 0, 64),
            entry("embeddings.norm.weight", vec![4], Encoding::F32Le, 64, 16),
            entry("encoder.0.qkv.weight", vec![12, 4], Encoding::I8RowSymmetric, 80, 96),
        ],
    }
}

fn invalid(m: &str) -> Result<(), Error> {
    Err(Error::Invalid(m.into()))
}

#[test]
fn lengths_follow_the_encoding() {
    assert_eq!(numel(&[8, 4]), Ok(32));
    assert_eq!(numel(&[usize::MAX, 2]), Err(Error::TooLong));
    assert_eq!(expected_encoding("embeddings.weight"), Encoding::I8RowSymmetric);
    assert_eq!(expected_encoding("final_norm.weight"), Encoding::F32Le);
    assert_eq!(expected_length("embeddings.weight", &[8, 4]), Ok(64));
    assert_eq!(expected_length("final_norm.weight", &[4]), Ok(16));
    assert_eq!(expected_length("embeddings.weight", &[32]), Err(Error::Invalid("matrix shape".into())));
}

#[test]
fn a_consistent_manifest_passes() {
    assert_eq!(manifest().validate(&expected()), Ok(()));
    let mut m = manifest();
    m.test_only = true;
    m.source_revision = "main".into();
    assert_eq!(m.validate(&expected()), Ok(()));
}

#[test]
fn manifest_refusals_in_order() {
    let exp = expected();
    let mut m = manifest();
    m.format = "other".into();
    assert_eq!(m.validate(&exp), invalid("pack metadata"));
    let mut m = manifest();
    m.source_repo.clear();
    assert_eq!(m.validate(&exp), invalid("pack metadata"));
    let mut m = manifest();
    m.total_bytes = (2u64 << 30) + 1;
    assert_eq!(m.validate(&exp), invalid("pack metadata"));
    let mut m = manifest();
    m.source_revision = "main".into();
    assert_eq!(m.validate(&exp), invalid("a real pack requires an immutable source commit"));
    let mut m = manifest();
    m.source_revision = "g123456789abcdef0123456789abcdef01234567".into();
    assert_eq!(m.validate(&exp), invalid("a real pack requires an immutable source commit"));
    assert_eq!(manifest().validate(&exp[..2]), invalid("tensor count"));
    let mut m = manifest();
    m.tensors[1].offset = 63;
    assert_eq!(m.validate(&exp), invalid("tensor name/shape/offset"));
    let mut m = manifest();
    m.tensors[2].shape = vec![4, 12];
    assert_eq!(m.validate(&exp), invalid("tensor name/shape/offset"));
    let mut m = manifest();
    m.tensors[1].name = "embeddings.weight".into();
    assert_eq!(m.validate(&exp), invalid("tensor name/shape/offset"));
    let mut m = manifest();
    m.tensors[1].encoding = Encoding::I8RowSymmetric;
    assert_eq!(m.validate(&exp), invalid("wrong encoding: embeddings.norm.weight"));
    let mut m = manifest();
    m.tensors[2].length = 95;
    assert_eq!(m.validate(&exp), Err(Error::TooLong));
    let mut m = manifest();
    m.total_bytes += 1;
    assert_eq!(m.validate(&exp), invalid("pack length"));
}

#[test]
fn first_failing_tensor_decides() {
    let mut m = manifest();
    m.tensors[1].length = 17;
    m.tensors[2].encoding = Encoding::F32Le;
    assert_eq!(m.validate(&expected()), Err(Error::TooLong));
}

fn stored(name: &str, shape: Vec<usize>, encoding: Encoding, bytes: &[u8]) -> TensorEntry {
    TensorEntry { name: name.into(), shape, encoding, offset: 0, length: bytes.len() as u64, sha256: hash(bytes) }
}

#[test]
fn tensor_bytes_must_match_their_entry() {
    let data = vec![1u8, 2, 3, 4];
    let e = stored("final_norm.weight", vec![1], Encoding::F32Le, &data);
    assert_eq!(check_tensor_bytes(&e, &data), Ok(()));
    assert_eq!(check_tensor_bytes(&e, &data[..3]), Err(Error::Invalid("tensor integrity".into())));
    assert_eq!(check_tensor_bytes(&e, &[1, 2, 3, 5]), Err(Error::Invalid("tensor integrity".into())));
}

#[test]
fn int8_weights_never_hold_the_minimum() {
    // Two rows of three int8 values, then two f32 scales.
    let mut bytes = vec![1u8, 255, 127, 0, 3, 4];
    bytes.extend_from_slice(&1.0f32.to_le_bytes());
    bytes.extend_from_slice(&0.5f32.to_le_bytes());
    let e = stored("embeddings.weight", vec![2, 3], Encoding::I8RowSymmetric, &bytes);
    assert_eq!(check_tensor_bytes(&e, &bytes), Ok(()));
    let mut bad = bytes.clone();
    bad[4] = 0x80;
    let e = stored("embeddings.weight", vec![2, 3], Encoding::I8RowSymmetric, &bad);
    assert_eq!(check_tensor_bytes(&e, &bad), Err(Error::Numeric));
    // 0x80 inside a scale is not an int8 weight.
    let mut scale = bytes.clone();
    scale[7] = 0x80;
    let e = stored("embeddings.weight", vec![2, 3], Encoding::I8RowSymmetric, &scale);
    assert_eq!(check_tensor_bytes(&e, &scale), Ok(()));
    let e = stored("embeddings.weight", vec![6], Encoding::I8RowSymmetric, &bytes);
    assert_eq!(check_tensor_bytes(&e, &bytes), Err(Error::Invalid("quantised weight shape".into())));
}

#[test]
fn checkpoint_names_map_to_pack_names() {
    let c = |n: &str| canonical(n);
    assert_eq!(c("model.logit_scale"), None);
    assert_eq!(c("model.encoder_model.embeddings.tok_embeddings.weight").as_deref(), Some("embeddings.weight"));
    assert_eq!(c("model.encoder_model.embeddings.norm.weight").as_deref(), Some("embeddings.norm.weight"));
    assert_eq!(c("model.encoder_model.final_norm.weight").as_deref(), Some("final_norm.weight"));
    assert_eq!(c("model.encoder_model.layers.3.attn.Wqkv.weight").as_deref(), Some("encoder.3.qkv.weight"));
    assert_eq!(c("model.encoder_model.layers.12.attn.Wo.weight").as_deref(), Some("encoder.12.out.weight"));
    assert_eq!(c("model.encoder_model.layers.0.attn_norm.weight").as_deref(), Some("encoder.0.attn_norm.weight"));
    assert_eq!(c("model.encoder_model.layers.7.mlp.Wi.weight").as_deref(), Some("encoder.7.wi.weight"));
    assert_eq!(c("model.encoder_model.layers.7.mlp.Wo.weight").as_deref(), Some("encoder.7.wo.weight"));
    assert_eq!(c("model.encoder_model.layers.7.mlp_norm.weight").as_deref(), Some("encoder.7.mlp_norm.weight"));
    assert_eq!(c("model.encoder_model.layers.7.mlp.Wx.weight"), None);
    assert_eq!(c("model.encoder_model.layers.7"), None);
    assert_eq!(c("model.encoder_model.layers"), None);
    assert_eq!(c("model.encoder_model.blocks.1.attn.Wo.weight"), None);
    assert_eq!(c("model.text_projector.linear_1.weight").as_deref(), Some("text_projector.linear_1.weight"));
    assert_eq!(c("model.classes_projector.linear_2.bias").as_deref(), Some("classes_projector.linear_2.bias"));
    assert_eq!(c("model.other.weight"), None);
    assert_eq!(c("text_projector.linear_1.weight"), None);
}
