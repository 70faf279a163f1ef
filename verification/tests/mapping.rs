use zenoh_plugin_lcm::mapping::{
    key_expr_to_lcm_channel, lcm_channel_to_key_expr, KeyExpr, MappingError,
};

#[test]
fn test_channel_to_key_expr() {
    let ke = lcm_channel_to_key_expr("SENSOR_IMU", "lcm").unwrap();
    assert_eq!(ke.as_str(), "lcm/SENSOR_IMU");
}

#[test]
fn test_channel_to_key_expr_custom_prefix() {
    let ke = lcm_channel_to_key_expr("ROBOT_STATE", "robot/lcm").unwrap();
    assert_eq!(ke.as_str(), "robot/lcm/ROBOT_STATE");
}

#[test]
fn test_channel_with_slash() {
    let ke = lcm_channel_to_key_expr("sensors/imu", "lcm").unwrap();
    assert_eq!(ke.as_str(), "lcm/sensors/imu");
}

#[test]
fn test_channel_with_wildcard_rejected() {
    assert!(lcm_channel_to_key_expr("SENSOR_*", "lcm").is_err());
}

#[test]
fn test_empty_channel_rejected() {
    assert!(lcm_channel_to_key_expr("", "lcm").is_err());
}

#[test]
fn test_key_expr_to_channel() {
    let ke = KeyExpr::new("lcm/SENSOR_IMU").unwrap();
    let channel = key_expr_to_lcm_channel(&ke, "lcm").unwrap();
    assert_eq!(channel, "SENSOR_IMU");
}

#[test]
fn test_key_expr_to_channel_hierarchical() {
    let ke = KeyExpr::new("lcm/sensors/imu").unwrap();
    let channel = key_expr_to_lcm_channel(&ke, "lcm").unwrap();
    assert_eq!(channel, "sensors/imu");
}

#[test]
fn test_key_expr_wrong_prefix() {
    let ke = KeyExpr::new("mqtt/SENSOR").unwrap();
    assert!(key_expr_to_lcm_channel(&ke, "lcm").is_err());
}

// --- Reserved character tests ---

#[test]
fn test_channel_with_hash_rejected() {
    assert!(lcm_channel_to_key_expr("SENSOR#1", "lcm").is_err());
}

#[test]
fn test_channel_with_dollar_rejected() {
    assert!(lcm_channel_to_key_expr("$SENSOR", "lcm").is_err());
}

#[test]
fn test_channel_with_all_reserved_rejected() {
    assert!(lcm_channel_to_key_expr("*#$", "lcm").is_err());
}

// --- Key expression edge cases ---

#[test]
fn test_key_expr_prefix_only_rejected_by_zenoh() {
    // "lcm/" is not a valid Zenoh key expression (trailing slash forbidden),
    // so it's impossible to even construct — Zenoh rejects it before we do.
    let result = KeyExpr::new("lcm/");
    assert!(result.is_err());
}

#[test]
fn test_channel_numeric_only() {
    let ke = lcm_channel_to_key_expr("12345", "lcm").unwrap();
    assert_eq!(ke.as_str(), "lcm/12345");
}

#[test]
fn test_channel_single_char() {
    let ke = lcm_channel_to_key_expr("A", "lcm").unwrap();
    assert_eq!(ke.as_str(), "lcm/A");
}

#[test]
fn test_channel_deeply_hierarchical() {
    let ke = lcm_channel_to_key_expr("a/b/c/d/e", "lcm").unwrap();
    assert_eq!(ke.as_str(), "lcm/a/b/c/d/e");

    // Round-trip.
    let channel = key_expr_to_lcm_channel(&ke, "lcm").unwrap();
    assert_eq!(channel, "a/b/c/d/e");
}

#[test]
fn test_key_expr_to_channel_prefix_mismatch_partial() {
    // Key starts with "lcm" but doesn't have the slash separator.
    let ke = KeyExpr::new("lcm_extra/SENSOR").unwrap();
    assert!(key_expr_to_lcm_channel(&ke, "lcm").is_err());
}

// --- What is said of a channel or a key that is not mapped ---

#[test]
fn test_mapping_error_texts() {
    assert_eq!(
        lcm_channel_to_key_expr("A*", "lcm").unwrap_err().message(),
        "LCM channel 'A*' contains Zenoh-reserved characters (* # $)"
    );
    assert_eq!(
        lcm_channel_to_key_expr("", "lcm").unwrap_err().message(),
        "LCM channel name is empty"
    );
    let ke = KeyExpr::new("mqtt/SENSOR").unwrap();
    assert_eq!(
        key_expr_to_lcm_channel(&ke, "lcm").unwrap_err().message(),
        "Zenoh key 'mqtt/SENSOR' does not start with expected prefix 'lcm/'"
    );
    let error = MappingError::NoChannel { key: "lcm/".to_string(), prefix: "lcm".to_string() };
    assert_eq!(error.message(), "Zenoh key 'lcm/' has empty channel after prefix 'lcm'");
}

#[test]
fn test_invalid_keys_rejected() {
    for channel in ["/A", "A/", "A//B", "A?B"] {
        match lcm_channel_to_key_expr(channel, "lcm") {
            Err(MappingError::InvalidKey { reason }) => {
                let error = MappingError::InvalidKey { reason: reason.clone() };
                assert!(reason.starts_with(&format!("Invalid Key Expr `lcm/{channel}`: ")));
                assert_eq!(error.message(), reason);
            }
            other => panic!("{channel}: {other:?}"),
        }
    }
    for prefix in ["", "/lcm", "lcm/", "a//b", "a#", "$", "a*"] {
        assert!(matches!(
            lcm_channel_to_key_expr("A", prefix),
            Err(MappingError::InvalidKey { .. })
        ));
    }
}

#[test]
fn test_wildcard_prefix_mapped() {
    let ke = lcm_channel_to_key_expr("A", "robots/*").unwrap();
    assert_eq!(ke.as_str(), "robots/*/A");
}

#[test]
fn test_key_exprs_intersect() {
    let version = KeyExpr::new("a/b/version").unwrap();
    assert!(version.intersects(&KeyExpr::new("a/*/version").unwrap()));
    assert!(version.intersects(&KeyExpr::new("a/**").unwrap()));
    assert!(version.intersects(&KeyExpr::new("a/b/version").unwrap()));
    assert!(!version.intersects(&KeyExpr::new("a/b/config").unwrap()));
    assert!(!version.intersects(&KeyExpr::new("b/**").unwrap()));
}

#[test]
fn test_key_expr_texts() {
    for text in ["a", "a/b", "**", "a/*/c", "a/b$*", "caméra/1", "@/x"] {
        assert_eq!(KeyExpr::new(text).unwrap().as_str(), text);
    }
    for text in ["", "/", "a/", "/a", "a//b", "a#b", "a?b", "a$b", "a*b", "**/**"] {
        let said = KeyExpr::new(text).unwrap_err();
        assert!(said.starts_with(&format!("Invalid Key Expr `{text}`: ")), "{said}");
    }
}
