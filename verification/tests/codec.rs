use blocklog::natural::Natural;
use blocklog::value::{serialize_value, Value};
use sha2::Digest;

fn sha(data: &[u8]) -> Vec<u8> {
    sha2::Sha256::digest(data).to_vec()
}

#[test]
fn encode_bytes_is_their_digest() {
    let v = Value::Bytes(vec![1u8, 2, 3]);
    assert_eq!(serialize_value(&v), sha(&[1u8, 2, 3]));
}

#[test]
fn encode_text_is_utf8_digest() {
    let v = Value::Text(String::from("abc"));
    assert_eq!(serialize_value(&v), sha(b"abc"));
    let e = Value::Text(String::new());
    assert_eq!(serialize_value(&e), sha(b""));
}

#[test]
fn encode_unsigned_uses_minimal_le_bytes() {
    let zero = Value::UnsignedInt(Natural::from_u64(0));
    assert_eq!(serialize_value(&zero), sha(&[0u8]));
    let one = Value::UnsignedInt(Natural::from_u64(1));
    assert_eq!(serialize_value(&one), sha(&[1u8]));
    let big = Value::UnsignedInt(Natural::from_u64(0x1234));
    assert_eq!(serialize_value(&big), sha(&[0x34u8, 0x12]));
    let wide = Value::UnsignedInt(Natural::from_u64(u64::MAX));
    assert_eq!(serialize_value(&wide), sha(&[0xffu8; 8]));
}

#[test]
fn natural_le_bytes_are_minimal() {
    assert_eq!(Natural::from_u64(0).to_le_bytes(), vec![0u8]);
    assert_eq!(Natural::from_u64(256).to_le_bytes(), vec![0u8, 1]);
    assert_eq!(Natural::from_u64(0x1234).to_le_bytes(), vec![0x34u8, 0x12]);
    assert_eq!(Natural::from_u64(7).duplicate().to_le_bytes(), vec![7u8]);
}

#[test]
fn natural_from_le_bytes_normalizes() {
    assert_eq!(Natural::from_le_bytes(vec![1u8, 0, 0]).to_le_bytes(), vec![1u8]);
    assert_eq!(Natural::from_le_bytes(Vec::new()).to_le_bytes(), vec![0u8]);
    assert_eq!(Natural::from_le_bytes(vec![0u8, 0]).to_le_bytes(), vec![0u8]);
    assert_eq!(
        Natural::from_le_bytes(vec![0x34u8, 0x12]).to_le_bytes(),
        Natural::from_u64(0x1234).to_le_bytes()
    );
}

#[test]
fn encode_signed_uses_16_le_bytes() {
    let one = Value::SignedInt(1);
    let mut one_bytes = vec![0u8; 16];
    one_bytes[0] = 1;
    assert_eq!(serialize_value(&one), sha(&one_bytes));
    let minus = Value::SignedInt(-1);
    assert_eq!(serialize_value(&minus), sha(&[0xffu8; 16]));
    let big = Value::SignedInt(i128::MIN);
    assert_eq!(serialize_value(&big), sha(&i128::MIN.to_le_bytes()));
}

#[test]
fn encode_sequence_concatenates_member_encodings() {
    let v = Value::Sequence(vec![
        Value::Text(String::from("a")),
        Value::Text(String::from("b")),
    ]);
    let mut input = sha(b"a");
    input.extend_from_slice(&sha(b"b"));
    assert_eq!(serialize_value(&v), sha(&input));
    let empty = Value::Sequence(Vec::new());
    assert_eq!(serialize_value(&empty), sha(b""));
}

#[test]
fn encode_fields_sorts_hashed_pairs() {
    let v = Value::OrderedFields(vec![
        (String::from("b"), Value::Text(String::from("y"))),
        (String::from("a"), Value::Text(String::from("x"))),
    ]);
    let mut pairs = vec![
        (sha(b"b"), sha(b"y")),
        (sha(b"a"), sha(b"x")),
    ];
    pairs.sort();
    let mut input: Vec<u8> = Vec::new();
    for (k, val) in pairs {
        input.extend_from_slice(&k);
        input.extend_from_slice(&val);
    }
    assert_eq!(serialize_value(&v), sha(&input));
}

#[test]
fn encode_fields_invariant_under_permutation() {
    let a = (String::from("alpha"), Value::UnsignedInt(Natural::from_u64(1)));
    let b = (String::from("beta"), Value::Text(String::from("two")));
    let c = (
        String::from("gamma"),
        Value::Sequence(vec![Value::SignedInt(-3), Value::Bytes(vec![9u8])]),
    );
    let one = Value::OrderedFields(vec![
        (a.0.clone(), a.1.deep_clone()),
        (b.0.clone(), b.1.deep_clone()),
        (c.0.clone(), c.1.deep_clone()),
    ]);
    let other = Value::OrderedFields(vec![
        (c.0.clone(), c.1.deep_clone()),
        (a.0.clone(), a.1.deep_clone()),
        (b.0.clone(), b.1.deep_clone()),
    ]);
    assert_eq!(serialize_value(&one), serialize_value(&other));
    let changed = Value::OrderedFields(vec![
        (a.0.clone(), a.1.deep_clone()),
        (b.0.clone(), Value::Text(String::from("three"))),
        (c.0.clone(), c.1.deep_clone()),
    ]);
    assert_ne!(serialize_value(&one), serialize_value(&changed));
}

#[test]
fn encode_fields_with_equal_names_keeps_both() {
    let one = Value::OrderedFields(vec![
        (String::from("k"), Value::Text(String::from("x"))),
        (String::from("k"), Value::Text(String::from("y"))),
    ]);
    let other = Value::OrderedFields(vec![
        (String::from("k"), Value::Text(String::from("y"))),
        (String::from("k"), Value::Text(String::from("x"))),
    ]);
    assert_eq!(serialize_value(&one), serialize_value(&other));
}

#[test]
fn deep_clone_encodes_identically() {
    let v = Value::OrderedFields(vec![(
        String::from("n"),
        Value::Sequence(vec![
            Value::UnsignedInt(Natural::from_u64(5)),
            Value::Text(String::from("t")),
        ]),
    )]);
    assert_eq!(serialize_value(&v), serialize_value(&v.deep_clone()));
}
