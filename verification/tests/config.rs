use ic_laya_core::config::{Activation, VerdictShape};
use ic_laya_core::pack::{expected_length, Encoding, Manifest, TensorEntry, FORMAT};
use ic_laya_core::prompt::{is_dense_weight, is_matrix_weight};
use ic_laya_core::types::Error;

fn shape(layers: usize) -> VerdictShape {
    VerdictShape {
        vocab_size: 50,
        hidden_size: 8,
        layers,
        attention_heads: 2,
        intermediate_size: 12,
        global_every: 3,
        local_attention: 128,
        first_layer_attention_norm: false,
        cls_token_id: 1,
        sep_token_id: 2,
        class_token_id: 5,
        max_classes: 25,
        projector_activation: Activation::Gelu,
    }
}

fn unsupported() -> Result<(), Error> {
    Err(Error::Invalid("unsupported verdict config".into()))
}

#[test]
fn architecture_bounds() {
    assert_eq!(shape(2).validate(), Ok(()));
    let mut c = shape(2);
    c.hidden_size = 10;
    c.attention_heads = 10;
    // A head of one dimension is odd.
    assert_eq!(c.validate(), unsupported());
    let mut c = shape(2);
    c.class_token_id = 1;
    assert_eq!(c.validate(), unsupported());
    let mut c = shape(65);
    assert_eq!(c.validate(), unsupported());
    c.layers = 64;
    assert_eq!(c.validate(), Ok(()));
    let mut c = shape(2);
    c.sep_token_id = 50;
    assert_eq!(c.validate(), unsupported());
}

#[test]
fn class_count_is_bounded_by_the_checkpoint() {
    let c = shape(2);
    assert_eq!(c.check_class_count(0), Err(Error::Invalid("no class tokens".into())));
    assert_eq!(c.check_class_count(25), Ok(()));
    assert_eq!(c.check_class_count(26), Err(Error::TooLong));
}

#[test]
fn expected_tensor_names_and_shapes() {
    let t = shape(2).expected_tensors().unwrap();
    let names: Vec<&str> = t.iter().map(|x| x.name.as_str()).collect();
    assert_eq!(
        names,
        vec![
            "embeddings.weight",
            "embeddings.norm.weight",
            "final_norm.weight",
            "encoder.0.qkv.weight",
            "encoder.0.out.weight",
            "encoder.0.mlp_norm.weight",
            "encoder.0.wi.weight",
            "encoder.0.wo.weight",
            "encoder.1.attn_norm.weight",
            "encoder.1.qkv.weight",
            "encoder.1.out.weight",
            "encoder.1.mlp_norm.weight",
            "encoder.1.wi.weight",
            "encoder.1.wo.weight",
            "text_projector.linear_1.weight",
            "text_projector.linear_1.bias",
            "text_projector.linear_2.weight",
            "text_projector.linear_2.bias",
            "classes_projector.linear_1.weight",
            "classes_projector.linear_1.bias",
            "classes_projector.linear_2.weight",
            "classes_projector.linear_2.bias",
        ]
    );
    assert_eq!(t[0].shape, vec![50, 8]);
    assert_eq!(t[3].shape, vec![24, 8]);
    assert_eq!(t[6].shape, vec![24, 8]);
    assert_eq!(t[7].shape, vec![8, 12]);
    let mut c = shape(2);
    c.first_layer_attention_norm = true;
    assert_eq!(c.expected_tensors().unwrap()[3].name, "encoder.0.attn_norm.weight");
    let mut c = shape(2);
    c.vocab_size = 4;
    assert_eq!(c.expected_tensors().map(|_| ()), unsupported());
}

#[test]
fn production_depth_has_142_tensors() {
    let t = shape(22).expected_tensors().unwrap();
    assert_eq!(t.len(), 142);
    assert!(t.iter().any(|x| x.name == "encoder.21.wo.weight"));
    let mut names: Vec<&str> = t.iter().map(|x| x.name.as_str()).collect();
    names.sort();
    names.dedup();
    assert_eq!(names.len(), 142);
}

#[test]
fn a_pack_laid_out_from_the_expected_tensors_validates() {
    let expected = shape(2).expected_tensors().unwrap();
    let mut offset = 0u64;
    let mut tensors = Vec::new();
    for e in &expected {
        let length = expected_length(&e.name, &e.shape).unwrap();
        let encoding = if is_matrix_weight(&e.name) { Encoding::I8RowSymmetric } else { Encoding::F32Le };
        tensors.push(TensorEntry { name: e.name.clone(), shape: e.shape.clone(), encoding, offset, length, sha256: [0; 32] });
        offset += length;
    }
    let m = Manifest {
        format: FORMAT.into(),
        source_repo: "example/verdict".into(),
        source_revision: "fixture".into(),
        test_only: true,
        tokenizer_sha256: [0; 32],
        total_bytes: offset,
        tensors,
    };
    assert_eq!(m.validate(&expected), Ok(()));
}

#[test]
fn a_manifest_validates_against_its_architecture() {
    let expected = shape(2).expected_tensors().unwrap();
    let mut offset = 0u64;
    let mut tensors = Vec::new();
    for e in &expected {
        let length = expected_length(&e.name, &e.shape).unwrap();
        let encoding = if is_matrix_weight(&e.name) { Encoding::I8RowSymmetric } else { Encoding::F32Le };
        tensors.push(TensorEntry { name: e.name.clone(), shape: e.shape.clone(), encoding, offset, length, sha256: [0; 32] });
        offset += length;
    }
    let mut m = Manifest {
        format: FORMAT.into(),
        source_repo: "example/verdict".into(),
        source_revision: "fixture".into(),
        test_only: true,
        tokenizer_sha256: [0; 32],
        total_bytes: offset,
        tensors,
    };
    assert_eq!(m.validate_for(&shape(2)), Ok(()));
    assert_eq!(m.validate_for(&shape(1)), Err(Error::Invalid("tensor count".into())));
    let mut wide = shape(2);
    wide.hidden_size = 0;
    assert_eq!(m.validate_for(&wide), unsupported());
    m.test_only = false;
    assert_eq!(m.validate_for(&wide), Err(Error::Invalid("a real pack requires an immutable source commit".into())));
}

#[test]
fn matrix_weights_are_the_two_dimensional_tensors() {
    let mut first = shape(3);
    first.first_layer_attention_norm = true;
    for s in [shape(3), first] {
        for e in s.expected_tensors().unwrap() {
            assert_eq!(is_matrix_weight(&e.name), e.shape.len() == 2, "{}", e.name);
            assert_eq!(is_dense_weight(&e.name), e.shape.len() == 2 && e.name != "embeddings.weight", "{}", e.name);
        }
    }
}
