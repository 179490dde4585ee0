use rustsptag::spann::index::{DistanceMetric, QuantizationType};
use rustsptag::spann::meta::{
    index_meta_from_fields, meta_fields, meta_fields_of, metric_name, parse_index_meta, quantization_name, IndexMeta, MetaError,
};

fn sample_meta() -> IndexMeta {
    IndexMeta {
        metric: DistanceMetric::InnerProduct,
        quantization: QuantizationType::TwoBit,
        replica_count: 8,
        posting_vector_limit: 1000,
        num_heads_to_search: 64,
        dim: 128,
        enable_compression: true,
        enable_delta: false,
    }
}

#[test]
fn settings_file_is_parsed() {
    let text = r#"{"metric": "InnerProduct", "quantization": "FourBit", "ratio": 0.1, "replica_count": 8,
        "posting_vector_limit": 500, "num_heads_to_search": 32, "enable_compression": true, "dim": 96}"#;
    let m = parse_index_meta(text, 7).unwrap();
    assert_eq!(m.metric, DistanceMetric::InnerProduct);
    assert_eq!(m.quantization, QuantizationType::FourBit);
    assert_eq!(m.replica_count, 8);
    assert_eq!(m.posting_vector_limit, 500);
    assert_eq!(m.num_heads_to_search, 32);
    assert_eq!(m.dim, 96);
    assert!(m.enable_compression);
    assert!(!m.enable_delta);
}

#[test]
fn unknown_names_and_missing_dim_take_defaults() {
    let text = r#"{"metric": "Cosine", "quantization": "None", "replica_count": 1,
        "posting_vector_limit": 2, "num_heads_to_search": 3}"#;
    let m = parse_index_meta(text, 7).unwrap();
    assert_eq!(m.metric, DistanceMetric::L2);
    assert_eq!(m.quantization, QuantizationType::Full);
    assert_eq!(m.dim, 7);
    assert!(!m.enable_compression);
}

#[test]
fn missing_field_and_bad_json_are_errors() {
    let text = r#"{"metric": "L2", "quantization": "None", "replica_count": 1}"#;
    assert_eq!(parse_index_meta(text, 0), Err(MetaError::Missing));
    assert_eq!(parse_index_meta("not json", 0), Err(MetaError::Json));
    assert_eq!(parse_index_meta("[1, 2]", 0), Err(MetaError::Missing));
}

#[test]
fn stored_fields_read_back() {
    let m = sample_meta();
    let f = meta_fields_of(&m);
    assert_eq!(f.metric.as_deref(), Some("InnerProduct"));
    assert_eq!(f.quantization.as_deref(), Some("TwoBit"));
    assert_eq!(index_meta_from_fields(&f, 0), Ok(m));
}

#[test]
fn names_are_those_of_the_settings_file() {
    assert_eq!(metric_name(DistanceMetric::L2), "L2");
    assert_eq!(metric_name(DistanceMetric::InnerProduct), "InnerProduct");
    assert_eq!(quantization_name(QuantizationType::Full), "None");
    assert_eq!(quantization_name(QuantizationType::OneBit), "OneBit");
    assert_eq!(quantization_name(QuantizationType::FourBit), "FourBit");
}

#[test]
fn fields_are_read_under_their_keys() {
    let text = r#"{"metric": "L2", "quantization": 3, "replica_count": 4, "dim": -1, "enable_delta": true}"#;
    let f = meta_fields(text).unwrap();
    assert_eq!(f.metric.as_deref(), Some("L2"));
    assert_eq!(f.quantization, None);
    assert_eq!(f.replica_count, Some(4));
    assert_eq!(f.posting_vector_limit, None);
    assert_eq!(f.dim, None);
    assert_eq!(f.enable_delta, Some(true));
    assert_eq!(f.enable_compression, None);
    assert!(meta_fields("{").is_none());
}
