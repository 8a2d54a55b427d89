use tinymvt::tag::TagError;
use tinymvt::tag::TagsDecoder;
use tinymvt::tag::TagsEncoder;
use tinymvt::tag::TileValue;
use tinymvt::tag::Value;

#[test]
fn tags_encoder() {
    let mut encoder = TagsEncoder::new();
    encoder.add("k0", Value::from("v0"));
    encoder.add("k0", Value::from("v0"));
    encoder.add("k1", Value::from("v0"));
    encoder.add("k1", Value::from("v1"));
    assert_eq!(encoder.take_tags(), [0, 0, 0, 0, 1, 0, 1, 1]);

    encoder.add("k0", Value::from("v0"));
    encoder.add("k0", Value::from("v2"));
    encoder.add("k1", Value::from("v2"));
    encoder.add("k2", Value::from("v0".to_string()));
    encoder.add("k1", Value::from("v1"));
    encoder.add("k1", Value::from("v1".to_string()));
    assert_eq!(encoder.take_tags(), [0, 0, 0, 2, 1, 2, 2, 0, 1, 1, 1, 1]);

    encoder.add("k1", Value::from(10i32));
    encoder.add("k2", Value::Double(10.5f64.to_ne_bytes()));
    encoder.add("k3", Value::from(10u32));
    encoder.add("k3", Value::from(-10i32));
    encoder.add("k3", Value::from(true));
    encoder.add("k3", Value::from(1i32));
    encoder.add("k2", Value::Float(10.5f32.to_ne_bytes()));
    encoder.add("k4", Value::Double(10.5f64.to_ne_bytes()));
    encoder.add("k3", Value::from(-10i64));
    encoder.add("k3", Value::from(10u64));
    encoder.add("k5", Value::Int(11));
    encoder.add("k5", Value::from(12i64));
    assert_eq!(
        encoder.take_tags(),
        [1, 3, 2, 4, 3, 3, 3, 5, 3, 6, 3, 7, 2, 8, 4, 4, 3, 5, 3, 3, 5, 9, 5, 10]
    );

    let (keys, values) = encoder.into_keys_and_values();
    assert_eq!(keys, vec!["k0", "k1", "k2", "k3", "k4", "k5"]);
    assert_eq!(
        values,
        vec![
            TileValue {
                string_value: Some("v0".to_string()),
                ..Default::default()
            },
            TileValue {
                string_value: Some("v1".to_string()),
                ..Default::default()
            },
            TileValue {
                string_value: Some("v2".to_string()),
                ..Default::default()
            },
            TileValue {
                uint_value: Some(10),
                ..Default::default()
            },
            TileValue {
                double_bits: Some(10.5f64.to_ne_bytes()),
                ..Default::default()
            },
            TileValue {
                sint_value: Some(-10),
                ..Default::default()
            },
            TileValue {
                bool_value: Some(true),
                ..Default::default()
            },
            TileValue {
                uint_value: Some(1),
                ..Default::default()
            },
            TileValue {
                float_bits: Some(10.5f32.to_ne_bytes()),
                ..Default::default()
            },
            TileValue {
                int_value: Some(11),
                ..Default::default()
            },
            TileValue {
                uint_value: Some(12),
                ..Default::default()
            },
        ]
    );
}

#[test]
fn test_tags_roundtrip() {
    // Decoding the emitted index stream against the emitted dictionaries
    // reproduces the exact key/value sequence, order included.
    let pairs: Vec<(&str, Value)> = vec![
        ("name", Value::from("castle")),
        ("height", Value::from(31u64)),
        ("name", Value::from("tower")),
        ("open", Value::from(true)),
        ("height", Value::from(31u64)),
        ("level", Value::Int(-3)),
    ];
    let mut encoder = TagsEncoder::new();
    for (k, v) in pairs.iter() {
        encoder.add(k, v.clone());
    }
    let tags = encoder.take_tags();
    let (keys, values) = encoder.into_keys_and_values();

    let decoder = TagsDecoder::new(keys, values);
    let decoded = decoder.decode(&tags).unwrap();
    assert_eq!(decoded.len(), pairs.len());
    for (i, (k, v)) in pairs.iter().enumerate() {
        assert_eq!(decoded[i].0.as_str(), *k);
        assert_eq!(&decoded[i].1, v);
    }
}

#[test]
fn test_dictionary_dedup() {
    // Adding the same key or the same value twice assigns the same index
    // both times, and the dictionaries hold each distinct entry once.
    let mut encoder = TagsEncoder::new();
    encoder.add("a", Value::from(7u64));
    encoder.add("a", Value::from(7u64));
    encoder.add("b", Value::from(7u64));
    assert_eq!(encoder.take_tags(), [0, 0, 0, 0, 1, 0]);
    let (keys, values) = encoder.into_keys_and_values();
    assert_eq!(keys, vec!["a", "b"]);
    assert_eq!(values.len(), 1);
}

#[test]
fn test_float_double_distinct_entries() {
    // A Float and a Double of the same numeric magnitude are distinct
    // dictionary entries: equality goes by variant and bit pattern.
    let mut encoder = TagsEncoder::new();
    encoder.add("k", Value::Float(1.5f32.to_ne_bytes()));
    encoder.add("k", Value::Double(1.5f64.to_ne_bytes()));
    assert_eq!(encoder.take_tags(), [0, 0, 0, 1]);
    let (_, values) = encoder.into_keys_and_values();
    assert_eq!(values.len(), 2);
}

#[test]
fn test_integer_routing() {
    // A non-negative signed integer and the unsigned integer of equal
    // magnitude intern to the identical Uint entry; a negative signed
    // integer becomes SInt, never shared with Uint or Int entries.
    assert_eq!(Value::from(10i64), Value::Uint(10));
    assert_eq!(Value::from(10i32), Value::Uint(10));
    assert_eq!(Value::from(10u32), Value::Uint(10));
    assert_eq!(Value::from(-10i64), Value::SInt(-10));
    assert_eq!(Value::from(-10i32), Value::SInt(-10));
    assert_ne!(Value::from(-10i64), Value::Int(-10));

    let mut encoder = TagsEncoder::new();
    encoder.add("k", Value::from(10i64));
    encoder.add("k", Value::from(10u64));
    encoder.add("k", Value::from(-10i64));
    encoder.add("k", Value::Int(-10));
    // the first two share one entry; the last two are distinct entries
    assert_eq!(encoder.take_tags(), [0, 0, 0, 0, 0, 1, 0, 2]);
}

#[test]
fn test_odd_length_tags_rejected() {
    let decoder = TagsDecoder::new(
        vec!["k".to_string()],
        vec![TileValue {
            bool_value: Some(true),
            ..Default::default()
        }],
    );
    assert_eq!(decoder.decode(&[0]), Err(TagError::OddLength));
}

#[test]
fn test_key_index_out_of_bounds() {
    let decoder = TagsDecoder::new(
        vec!["k".to_string()],
        vec![TileValue {
            bool_value: Some(true),
            ..Default::default()
        }],
    );
    assert_eq!(decoder.decode(&[99, 0]), Err(TagError::KeyIndexOutOfBounds(99)));
}

#[test]
fn test_value_index_out_of_bounds() {
    let decoder = TagsDecoder::new(
        vec!["k".to_string()],
        vec![TileValue {
            bool_value: Some(true),
            ..Default::default()
        }],
    );
    assert_eq!(decoder.decode(&[0, 99]), Err(TagError::ValueIndexOutOfBounds(99)));
}

#[test]
fn test_empty_value_rejected() {
    // A dictionary value with no field set cannot be interpreted.
    let decoder = TagsDecoder::new(vec!["k".to_string()], vec![TileValue::default()]);
    assert_eq!(decoder.decode(&[0, 0]), Err(TagError::UnsupportedValue(0)));
}

#[test]
fn test_tile_value_conversion_roundtrip() {
    let samples = vec![
        Value::String("hi".to_string()),
        Value::Float(2.25f32.to_ne_bytes()),
        Value::Double((-0.5f64).to_ne_bytes()),
        Value::Int(-42),
        Value::Uint(42),
        Value::SInt(-7),
        Value::Bool(false),
    ];
    for v in samples {
        let tile = v.clone().into_tile_value();
        assert_eq!(Value::from_tile_value(&tile), Some(v));
    }
    assert_eq!(Value::from_tile_value(&TileValue::default()), None);
}
