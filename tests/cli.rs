use auradb::error::AuraError;

#[test]
fn tests_test_cli_parsing() {
    let args = ["aura-cli", "--host", "127.0.0.1", "--port", "7654"];
    assert_eq!(args.len(), 5);
    assert_eq!(args[0], "aura-cli");
}

#[test]
fn tests_test_network_address_parsing() {
    let host = "127.0.0.1";
    let port = 7654;
    assert!(host.contains('.'));
    assert!(port > 1024 && port < 65535);
    let address = format!("{}:{}", host, port);
    assert_eq!(address, "127.0.0.1:7654");
}

#[test]
fn tests_test_query_input_validation() {
    let valid_queries = vec![
        "SELECT * FROM users WHERE id = 'user_007'",
        "INSERT INTO users (id, name) VALUES ('user_008', 'Jane')",
    ];
    for query in valid_queries {
        assert!(!query.is_empty());
        assert!(query.to_uppercase().contains("SELECT") || query.to_uppercase().contains("INSERT"));
    }
    let invalid_queries = vec!["", "   ", "INVALID QUERY"];
    for query in invalid_queries {
        assert!(
            query.trim().is_empty()
                || !query.to_uppercase().contains("SELECT") && !query.to_uppercase().contains("INSERT")
        );
    }
}

#[test]
fn tests_test_repl_command_parsing() {
    let commands = vec![".exit", ".quit", ".help", "SELECT * FROM users"];
    for cmd in commands {
        if cmd.starts_with('.') {
            assert!(cmd.len() > 1);
        } else {
            assert!(cmd.to_uppercase().contains("SELECT") || cmd.to_uppercase().contains("INSERT"));
        }
    }
}

#[test]
fn tests_test_error_display_formatting() {
    let errors = vec![
        AuraError::Io(std::io::Error::new(std::io::ErrorKind::ConnectionRefused, "Connection failed")),
        AuraError::NotFound("Document not found".to_string()),
        AuraError::Crypto("Encryption failed".to_string()),
    ];
    for error in errors {
        let error_msg = error.to_string();
        assert!(!error_msg.is_empty());
        assert!(!error_msg.contains("Box<dyn"));
    }
}

#[test]
fn tests_test_connection_timeout_handling() {
    let connect_timeout_ms = 5000;
    let read_timeout_ms = 10000;
    assert!(connect_timeout_ms > 0);
    assert!(read_timeout_ms > connect_timeout_ms);
    assert!(read_timeout_ms < 60000);
}
