use auradb::pager::Pager;
use auradb::query::{
    where_key, Condition, InsertSource, Operand, QueryEngine, QueryError, SqlValue, Statement,
};
use auradb::session::{
    finish_handshake, frame_length, open_message, reply, seal_message, ConnectionState,
    HandshakeStep,
};
use auradb::symmetric::generate_key;
use auradb::kem::PQCKeyPair;
use auradb::text::parse_i64;

fn select_id(key: &str) -> Statement {
    Statement::Select {
        condition: Some(Condition::Equals(
            Operand::Column("id".to_string()),
            Operand::Text(key.to_string()),
        )),
    }
}

fn insert_user_007() -> Statement {
    Statement::Insert {
        columns: vec!["id".to_string(), "name".to_string(), "age".to_string()],
        source: Some(InsertSource::Values(vec![vec![
            SqlValue::SingleQuotedString("user_007".to_string()),
            SqlValue::SingleQuotedString("James".to_string()),
            SqlValue::Number("35".to_string()),
        ]])),
    }
}

#[test]
fn test_sql_to_encrypted_storage() {
    let key = generate_key();
    let mut pager = Pager::open(&[], key).unwrap();
    let mut engine = QueryEngine::new(&mut pager);
    let insert_result = engine.execute(Ok(vec![insert_user_007()])).expect("INSERT failed");
    assert!(insert_result.contains("user_007"));
    let select = select_id("user_007");
    let select_result = engine.execute(Ok(vec![select])).expect("SELECT failed");
    assert!(select_result.contains("user_007"));
    assert!(select_result.contains("James"));
}

#[test]
fn test_sql_parse_errors() {
    let mut pager = Pager::open(&[], generate_key()).unwrap();
    let mut engine = QueryEngine::new(&mut pager);
    let r = engine.execute(Err("Expected an SQL statement, found: INVALID".to_string()));
    assert!(matches!(r, Err(QueryError::Parse(_))));
    let incomplete = Statement::Insert { columns: vec![], source: None };
    assert!(engine.execute(Ok(vec![incomplete])).is_err());
    // UPDATE and DELETE both come to the executor as other statements.
    let update = engine.execute(Ok(vec![Statement::Other]));
    assert!(update.is_err());
    assert!(update.unwrap_err().to_string().contains("Not Implemented"));
    let delete = engine.execute(Ok(vec![Statement::Other]));
    assert!(delete.is_err());
    assert!(delete.unwrap_err().to_string().contains("Not Implemented"));
}

#[test]
fn test_query_engine_initialization() {
    let mut pager = Pager::open(&[], generate_key()).unwrap();
    let mut engine = QueryEngine::new(&mut pager);
    assert!(engine.execute(Ok(vec![])).is_err());
}

#[test]
fn test_select_parsing_limitations() {
    let mut pager = Pager::open(&[], generate_key()).unwrap();
    let mut engine = QueryEngine::new(&mut pager);
    match engine.execute(Ok(vec![select_id("user_007")])) {
        Ok(msg) => assert!(msg.contains("not found")),
        Err(e) => panic!("{}", e.to_string()),
    }
    let r = engine.execute(Ok(vec![Statement::Select { condition: None }]));
    assert!(r.unwrap_err().to_string().contains("Not Implemented"));
}

#[test]
fn test_sql_insert_various_data_types() {
    let mut pager = Pager::open(&[], generate_key()).unwrap();
    let mut engine = QueryEngine::new(&mut pager);
    let stmt = Statement::Insert {
        columns: vec!["id".into(), "name".into(), "price".into(), "in_stock".into()],
        source: Some(InsertSource::Values(vec![vec![
            SqlValue::SingleQuotedString("prod_001".into()),
            SqlValue::SingleQuotedString("Widget".into()),
            SqlValue::Number("29.99".into()),
            SqlValue::Boolean(true),
        ]])),
    };
    let msg = engine.execute(Ok(vec![stmt])).unwrap();
    assert_eq!(msg, "Inserted Document ID: prod_001");
    let found = engine.execute(Ok(vec![select_id("prod_001")])).unwrap();
    assert!(found.contains("Integer(0)"));
    assert!(found.contains("Boolean(true)"));
}

#[test]
fn insert_without_id_gets_generated_key() {
    let mut pager = Pager::open(&[], generate_key()).unwrap();
    let mut engine = QueryEngine::new(&mut pager);
    let stmt = Statement::Insert {
        columns: vec!["name".into()],
        source: Some(InsertSource::Values(vec![vec![SqlValue::SingleQuotedString("x".into())]])),
    };
    let msg = engine.execute(Ok(vec![stmt])).unwrap();
    assert_eq!(msg.len(), "Inserted Document ID: ".len() + 36);
    let too_few = Statement::Insert {
        columns: vec!["a".into(), "b".into()],
        source: Some(InsertSource::Values(vec![vec![SqlValue::Other]])),
    };
    assert!(matches!(engine.execute(Ok(vec![too_few])), Err(QueryError::Unimplemented(_))));
    let other = Statement::Insert { columns: vec![], source: Some(InsertSource::Other) };
    assert!(matches!(engine.execute(Ok(vec![other])), Err(QueryError::Unimplemented(_))));
}

#[test]
fn oversized_document_is_refused() {
    let mut pager = Pager::open(&[], generate_key()).unwrap();
    let mut engine = QueryEngine::new(&mut pager);
    let stmt = Statement::Insert {
        columns: vec!["id".into(), "blob".into()],
        source: Some(InsertSource::Values(vec![vec![
            SqlValue::SingleQuotedString("big".into()),
            SqlValue::SingleQuotedString("y".repeat(5000)),
        ]])),
    };
    assert!(matches!(engine.execute(Ok(vec![stmt])), Err(QueryError::Serialization(_))));
}

#[test]
fn integers_parse_with_sign_and_range() {
    assert_eq!(parse_i64("35"), Some(35));
    assert_eq!(parse_i64("-9223372036854775808"), Some(i64::MIN));
    assert_eq!(parse_i64("+7"), Some(7));
    assert_eq!(parse_i64("9223372036854775808"), None);
    assert_eq!(parse_i64("29.99"), None);
    assert_eq!(parse_i64(""), None);
    assert_eq!(parse_i64("-"), None);
}

#[test]
fn test_connection_state_machine() {
    let state = ConnectionState::Handshake;
    assert!(matches!(state, ConnectionState::Handshake));
    let state = ConnectionState::Authenticated { session_key: vec![1, 2, 3] };
    assert!(matches!(state, ConnectionState::Authenticated { session_key: _ }));
}

#[test]
fn handshake_decisions() {
    let keys = PQCKeyPair::generate();
    assert!(matches!(finish_handshake(&[], &keys.sk), HandshakeStep::Closed));
    match finish_handshake(&[0u8; 100], &keys.sk) {
        HandshakeStep::Fail(m) => assert_eq!(m, "Expected 1568 bytes for ciphertext, got 100"),
        _ => panic!("short answer accepted"),
    }
    let (secret, ct) = auradb::kem::encapsulate(pqcrypto_traits::kem::PublicKey::as_bytes(&keys.pk)).unwrap();
    match finish_handshake(&ct, &keys.sk) {
        HandshakeStep::Proceed(ConnectionState::Authenticated { session_key }) => assert_eq!(session_key, secret),
        _ => panic!("handshake failed"),
    }
}

#[test]
fn replies_are_prefixed() {
    assert_eq!(reply(&Ok("done".to_string())), "OK: done");
    assert_eq!(
        reply(&Err(QueryError::Unimplemented("x".to_string()))),
        "ERROR: Not Implemented: x"
    );
}

#[test]
fn sealed_frames_round_trip() {
    let key = generate_key();
    let frame = seal_message(&key, b"SELECT 1").unwrap();
    assert_eq!(frame.len(), 4 + 24 + 8 + 16);
    assert_eq!(frame_length(&frame[..4]) as usize, frame.len() - 4);
    assert_eq!(&frame[..4], &[0, 0, 0, 48]);
    assert_eq!(open_message(&key, &frame[4..]).unwrap(), b"SELECT 1".to_vec());
    let other = generate_key();
    assert!(open_message(&other, &frame[4..]).is_err());
    assert!(seal_message(&key[..16], b"x").is_err());
}

#[test]
fn random_ciphertext_gives_a_key_that_opens_nothing() {
    let server = PQCKeyPair::generate();
    let (client_secret, _ct) =
        auradb::kem::encapsulate(pqcrypto_traits::kem::PublicKey::as_bytes(&server.pk)).unwrap();
    let forged: Vec<u8> = (0..1568u32).map(|i| (i.wrapping_mul(2654435761) >> 13) as u8).collect();
    let server_key = match finish_handshake(&forged, &server.sk) {
        HandshakeStep::Proceed(ConnectionState::Authenticated { session_key }) => session_key,
        HandshakeStep::Fail(_) => return,
        HandshakeStep::Proceed(ConnectionState::Handshake) | HandshakeStep::Closed => {
            panic!("answer was not empty")
        }
    };
    assert_ne!(server_key, client_secret);
    let frame = seal_message(&client_secret, b"SELECT * FROM users WHERE id = 'x'").unwrap();
    assert!(open_message(&server_key, &frame[4..]).is_err());
}

#[test]
fn where_conditions_name_a_key() {
    let eq = |l: Operand, r: Operand| Some(Condition::Equals(l, r));
    assert_eq!(
        where_key(&eq(Operand::Column("id".into()), Operand::Text("k".into()))),
        Some("k".to_string())
    );
    assert_eq!(
        where_key(&eq(Operand::Text("k".into()), Operand::Column("id".into()))),
        Some("k".to_string())
    );
    assert_eq!(where_key(&eq(Operand::Column("age".into()), Operand::Text("k".into()))), None);
    assert_eq!(where_key(&eq(Operand::Column("id".into()), Operand::Other)), None);
    assert_eq!(where_key(&Some(Condition::Other)), None);
    assert_eq!(where_key(&None), None);
    let mut pager = Pager::open(&[], generate_key()).unwrap();
    let mut engine = QueryEngine::new(&mut pager);
    let complex = Statement::Select { condition: Some(Condition::Other) };
    assert!(matches!(engine.execute(Ok(vec![complex])), Err(QueryError::Unimplemented(_))));
}
