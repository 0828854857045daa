use auradb::document::{AuraDocument, DataValue};

#[test]
fn test_hybrid_document_serialization() {
    let mut doc = AuraDocument::new("user_123");
    doc.set("name".to_string(), DataValue::Text("Alice".to_string()));
    doc.set("age".to_string(), DataValue::Integer(30));
    let address = vec![("city".to_string(), DataValue::Text("Wonderland".to_string()))];
    doc.set("address".to_string(), DataValue::Object(address));

    let bytes = doc.to_bytes().expect("Failed to serialize");
    let loaded_doc = AuraDocument::from_bytes(&bytes).expect("Failed to deserialize");
    assert_eq!(doc.id, loaded_doc.id);
    match loaded_doc.get("address").unwrap() {
        DataValue::Object(map) => {
            let city = map.iter().find(|(k, _)| k == "city").map(|(_, v)| v);
            assert_eq!(city, Some(&DataValue::Text("Wonderland".to_string())));
        }
        _ => panic!("Address should be an object"),
    }
}

#[test]
fn test_datavalue_variants() {
    assert_eq!(DataValue::Null, DataValue::Null);
    assert_eq!(DataValue::Boolean(true), DataValue::Boolean(true));
    assert_eq!(DataValue::Integer(42), DataValue::Integer(42));
    assert_eq!(
        DataValue::Float(std::f64::consts::PI.to_bits()),
        DataValue::Float(std::f64::consts::PI.to_bits())
    );
    assert_eq!(DataValue::Text("hello".to_string()), DataValue::Text("hello".to_string()));
    assert_eq!(DataValue::Binary(vec![1, 2, 3]), DataValue::Binary(vec![1, 2, 3]));
    assert_eq!(DataValue::Encrypted(vec![4, 5, 6]), DataValue::Encrypted(vec![4, 5, 6]));
    assert_eq!(
        DataValue::Array(vec![DataValue::Integer(1), DataValue::Integer(2)]),
        DataValue::Array(vec![DataValue::Integer(1), DataValue::Integer(2)])
    );
    let obj = || vec![("key".to_string(), DataValue::Text("value".to_string()))];
    assert_eq!(DataValue::Object(obj()), DataValue::Object(obj()));
}

#[test]
fn test_document_creation_and_modification() {
    let mut doc = AuraDocument::new("test_id");
    assert_eq!(doc.id, "test_id");
    assert_eq!(doc.version, 1);
    assert!(doc.data.is_empty());
    doc.set("name".to_string(), DataValue::Text("Alice".to_string()));
    doc.set("age".to_string(), DataValue::Integer(25));
    doc.set("active".to_string(), DataValue::Boolean(true));
    assert_eq!(doc.data.len(), 3);
    assert_eq!(doc.get("name"), Some(&DataValue::Text("Alice".to_string())));
    assert_eq!(doc.get("age"), Some(&DataValue::Integer(25)));
    assert_eq!(doc.get("active"), Some(&DataValue::Boolean(true)));
}

fn full_doc() -> AuraDocument {
    let mut full_doc = AuraDocument::new("full");
    full_doc.set("null_val".to_string(), DataValue::Null);
    full_doc.set("bool_val".to_string(), DataValue::Boolean(false));
    full_doc.set("int_val".to_string(), DataValue::Integer(-123));
    full_doc.set("float_val".to_string(), DataValue::Float((-std::f64::consts::PI).to_bits()));
    full_doc.set("text_val".to_string(), DataValue::Text("".to_string()));
    full_doc.set("binary_val".to_string(), DataValue::Binary(vec![]));
    full_doc.set("array_val".to_string(), DataValue::Array(vec![]));
    let obj = vec![("nested".to_string(), DataValue::Text("deep".to_string()))];
    full_doc.set("object_val".to_string(), DataValue::Object(obj));
    full_doc
}

#[test]
fn test_document_serialization_edge_cases() {
    let empty_doc = AuraDocument::new("empty");
    let bytes = empty_doc.to_bytes().unwrap();
    let deserialized = AuraDocument::from_bytes(&bytes).unwrap();
    assert_eq!(empty_doc, deserialized);

    let full_doc = full_doc();
    let bytes = full_doc.to_bytes().unwrap();
    let deserialized = AuraDocument::from_bytes(&bytes).unwrap();
    assert_eq!(full_doc, deserialized);
}

#[test]
fn test_document_version_increment() {
    let mut doc = AuraDocument::new("version_test");
    assert_eq!(doc.version, 1);
    doc.version = 2;
    assert_eq!(doc.version, 2);
}

#[test]
fn test_serialization_errors() {
    let invalid_bytes = vec![0, 1, 2, 3];
    assert!(AuraDocument::from_bytes(&invalid_bytes).is_err());
    assert!(AuraDocument::from_bytes(&[]).is_err());
}

#[test]
fn tests_test_document_display_formatting() {
    let mut doc = AuraDocument::new("test_doc");
    doc.set("id".to_string(), DataValue::Text("user_123".to_string()));
    doc.set("name".to_string(), DataValue::Text("John Doe".to_string()));
    doc.set("age".to_string(), DataValue::Integer(30));
    doc.set("active".to_string(), DataValue::Boolean(true));
    let bytes = doc.to_bytes().unwrap();
    assert!(!bytes.is_empty());
    let deserialized = AuraDocument::from_bytes(&bytes).unwrap();
    assert_eq!(deserialized.data.len(), 4);
}

#[test]
fn tests_test_data_value_display() {
    let values = vec![
        DataValue::Text("hello".to_string()),
        DataValue::Integer(42),
        DataValue::Boolean(true),
        DataValue::Float(3.14f64.to_bits()),
    ];
    for value in values {
        let mut doc = AuraDocument::new("");
        doc.set("test".to_string(), value);
        let bytes = doc.to_bytes().unwrap();
        assert!(!bytes.is_empty());
    }
}

#[test]
fn test_document_creation_for_server() {
    let mut doc = AuraDocument::new("test_doc");
    doc.set("id".to_string(), DataValue::Text("test_id".to_string()));
    doc.set("data".to_string(), DataValue::Text("test_data".to_string()));
    let bytes = doc.to_bytes().unwrap();
    assert!(!bytes.is_empty());
    let deserialized = AuraDocument::from_bytes(&bytes).unwrap();
    assert_eq!(deserialized.get("id"), Some(&DataValue::Text("test_id".to_string())));
    assert_eq!(deserialized.get("data"), Some(&DataValue::Text("test_data".to_string())));
}

#[test]
fn nested_values_round_trip_and_exact_bytes() {
    let mut doc = AuraDocument::new("n");
    doc.version = 7;
    doc.set(
        "a".to_string(),
        DataValue::Array(vec![
            DataValue::Array(vec![]),
            DataValue::Object(vec![]),
            DataValue::Encrypted(vec![9]),
            DataValue::Integer(i64::MIN),
        ]),
    );
    let bytes = doc.to_bytes().unwrap();
    assert_eq!(AuraDocument::from_bytes(&bytes).unwrap(), doc);

    let small = AuraDocument::new("x");
    assert_eq!(
        small.to_bytes().unwrap(),
        vec![1, 0, 0, 0, b'x', 1, 0, 0, 0, 0, 0, 0, 0, 0, 0, 0, 0]
    );
    let mut one = AuraDocument::new("");
    one.set("b".to_string(), DataValue::Boolean(true));
    assert_eq!(
        one.to_bytes().unwrap(),
        vec![0, 0, 0, 0, 1, 0, 0, 0, 0, 0, 0, 0, 1, 0, 0, 0, 1, 0, 0, 0, b'b', 1, 1]
    );
    let mut trailing = small.to_bytes().unwrap();
    trailing.push(0);
    assert!(AuraDocument::from_bytes(&trailing).is_err());
}
