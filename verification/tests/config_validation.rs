// Configuration validation rules exercised on plain values.

#[test]
fn test_config_validation_rules() {
    // Test various validation scenarios
    let validations = vec![
        // (field, value, expected_valid)
        ("port", "65535", true),
        ("port", "65536", false),
        ("max_agents", "1000", true),
        ("max_agents", "0", false),
        ("learning_rate", "0.5", true),
        ("learning_rate", "1.5", false),
        ("memory_size", "1000000", true),
        ("memory_size", "-100", false),
    ];

    for (field, value, expected) in validations {
        match field {
            "port" => {
                let port: Result<u16, _> = value.parse();
                if expected {
                    assert!(port.is_ok() && port.unwrap() <= 65535);
                } else {
                    assert!(port.is_err() || port.unwrap() > 65535);
                }
            }
            "max_agents" => {
                let agents: Result<usize, _> = value.parse();
                if expected {
                    assert!(agents.is_ok() && agents.unwrap() > 0);
                } else {
                    assert!(agents.is_err() || agents.unwrap() == 0);
                }
            }
            "learning_rate" => {
                let rate: Result<f32, _> = value.parse();
                if expected {
                    assert!(rate.is_ok() && rate.unwrap() <= 1.0);
                } else {
                    assert!(rate.is_err() || rate.unwrap() > 1.0);
                }
            }
            "memory_size" => {
                let size: Result<i64, _> = value.parse();
                if expected {
                    assert!(size.is_ok() && size.unwrap() > 0);
                } else {
                    assert!(size.is_err() || size.unwrap() <= 0);
                }
            }
            _ => {}
        }
    }
}

#[test]
fn test_config_security_validation() {
    // Sensitive fields and system paths must be detectable
    let config_with_secrets = r#"
[node]
id = "test-node"
name = "Test Node"
port = 8080
api_key = "secret-key-123"  # Should be encrypted or in env var

[storage]
path = "/etc/passwd"  # Should not allow system paths
    "#;

    assert!(
        config_with_secrets.contains("api_key"),
        "Should detect sensitive fields"
    );
    assert!(
        config_with_secrets.contains("/etc/"),
        "Should detect system paths"
    );
}
