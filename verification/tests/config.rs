use serde_json::Value;
use zenoh_plugin_lcm::config::{
    deserialize_path, deserialize_regex, filter_verdict, is_allowed, regex_setting,
    serialize_allow, serialize_deny, Config, PathValue, DEFAULT_KEY_PREFIX, DEFAULT_LCM_URL,
    DEFAULT_MAX_BLOCK_THREAD_NUM, DEFAULT_MAX_MESSAGE_SIZE, DEFAULT_WORK_THREAD_NUM,
};

/// The configuration for the fields of a JSON object.
fn from_json(text: &str) -> Result<Config, String> {
    let json: Value = serde_json::from_str(text).unwrap();
    let mut config = Config::default();
    config.allow = deserialize_regex(json["allow"].as_str())?;
    config.deny = deserialize_regex(json["deny"].as_str())?;
    config.__path__ = deserialize_path(match &json["__path__"] {
        Value::String(s) => PathValue::One(s.clone()),
        Value::Array(list) => PathValue::Many(
            list.iter().map(|s| s.as_str().unwrap().to_string()).collect(),
        ),
        _ => PathValue::Absent,
    });
    if let Some(n) = json["work_thread_num"].as_u64() {
        config.work_thread_num = n as usize;
    }
    if let Some(n) = json["max_block_thread_num"].as_u64() {
        config.max_block_thread_num = n as usize;
    }
    Ok(config)
}

#[test]
fn test_default_config() {
    let config = from_json("{}").unwrap();
    assert_eq!(config.lcm_url, DEFAULT_LCM_URL);
    assert_eq!(config.key_prefix, DEFAULT_KEY_PREFIX);
    assert!(config.allow.is_none());
    assert!(config.deny.is_none());
    assert!(config.network_interface.is_none());
}

#[test]
fn test_allow_deny() {
    let config = from_json(r#"{"allow": "SENSOR_.*", "deny": "SENSOR_DEBUG"}"#).unwrap();
    assert!(is_allowed("SENSOR_IMU", &config));
    assert!(!is_allowed("SENSOR_DEBUG", &config));
    assert!(!is_allowed("MOTOR_CMD", &config));
}

#[test]
fn test_path_field() {
    let config = from_json(r#"{"__path__": "/example/path"}"#).unwrap();
    assert!(config.__path__.is_some());
}

#[test]
fn test_path_field_as_array() {
    let config = from_json(r#"{"__path__": ["/a", "/b"]}"#).unwrap();
    let paths = config.__path__.unwrap();
    assert_eq!(paths.len(), 2);
    assert_eq!(paths[0], "/a");
}

#[test]
fn test_invalid_regex_rejected() {
    let result = from_json(r#"{"allow": "[invalid"}"#);
    assert!(result.is_err());
}

#[test]
fn test_deny_only() {
    let config = from_json(r#"{"deny": "DEBUG_.*"}"#).unwrap();
    assert!(is_allowed("SENSOR_IMU", &config));
    assert!(!is_allowed("DEBUG_TEMP", &config));
}

#[test]
fn test_allow_only() {
    let config = from_json(r#"{"allow": "SENSOR_.*"}"#).unwrap();
    assert!(is_allowed("SENSOR_IMU", &config));
    assert!(!is_allowed("MOTOR_CMD", &config));
}

#[test]
fn test_neither_allow_nor_deny() {
    let config = from_json("{}").unwrap();
    assert!(is_allowed("ANYTHING", &config));
    assert!(is_allowed("", &config));
}

#[test]
fn test_allow_and_deny_overlap() {
    // Allow SENSOR_.*, deny SENSOR_DEBUG.* — SENSOR_DEBUG_X should be denied.
    let config = from_json(r#"{"allow": "SENSOR_.*", "deny": "SENSOR_DEBUG.*"}"#).unwrap();
    assert!(is_allowed("SENSOR_IMU", &config));
    assert!(!is_allowed("SENSOR_DEBUG_X", &config));
    assert!(!is_allowed("MOTOR_CMD", &config));
}

#[test]
fn test_custom_thread_settings() {
    let config = from_json(r#"{"work_thread_num": 4, "max_block_thread_num": 100}"#).unwrap();
    assert_eq!(config.work_thread_num, 4);
    assert_eq!(config.max_block_thread_num, 100);
}

#[test]
fn test_config_serialization_roundtrip() {
    let config = from_json(r#"{"allow": "SENSOR_.*", "deny": "DEBUG_.*"}"#).unwrap();
    // Serialized allow should show the regex pattern, deny likewise.
    assert_eq!(serialize_allow(&config.allow), "SENSOR_.*");
    assert_eq!(serialize_deny(&config.deny), "DEBUG_.*");
}

#[test]
fn test_default_numbers() {
    let config = Config::default();
    assert_eq!(config.max_message_size, 4_194_304);
    assert_eq!(config.max_message_size, DEFAULT_MAX_MESSAGE_SIZE);
    assert_eq!(config.work_thread_num, DEFAULT_WORK_THREAD_NUM);
    assert_eq!(config.max_block_thread_num, DEFAULT_MAX_BLOCK_THREAD_NUM);
    assert_eq!(config.__required__, None);
    assert_eq!(config.__path__, None);
}

#[test]
fn test_absent_patterns_written() {
    assert_eq!(serialize_allow(&None), ".*");
    assert_eq!(serialize_deny(&None), "");
}

#[test]
fn test_filter_table() {
    assert!(filter_verdict(None, None));
    assert!(filter_verdict(Some(true), None));
    assert!(!filter_verdict(Some(false), None));
    assert!(!filter_verdict(None, Some(true)));
    assert!(filter_verdict(None, Some(false)));
    assert!(!filter_verdict(Some(true), Some(true)));
    assert!(filter_verdict(Some(true), Some(false)));
    assert!(!filter_verdict(Some(false), Some(true)));
    assert!(!filter_verdict(Some(false), Some(false)));
}

#[test]
fn test_invalid_regex_text() {
    let pattern = "[invalid";
    let error = regex::Regex::new(pattern).unwrap_err();
    let expected = format!("Invalid regex for 'allow' or 'deny': \"[invalid\" - {error}");
    assert_eq!(deserialize_regex(Some(pattern)).unwrap_err(), expected);
    assert_eq!(regex_setting(pattern, Err(error)).unwrap_err(), expected);
}

#[test]
fn test_regex_setting() {
    let re = regex::Regex::new("A+").unwrap();
    let setting = regex_setting("A+", Ok(re)).unwrap().unwrap();
    assert_eq!(setting.as_str(), "A+");
    assert!(deserialize_regex(None).unwrap().is_none());
}

#[test]
fn test_match_anywhere() {
    let config = from_json(r#"{"allow": "IMU"}"#).unwrap();
    assert!(is_allowed("SENSOR_IMU_RAW", &config));
    assert!(!is_allowed("imu", &config));
}

#[test]
fn test_config_clone() {
    let mut config = from_json(r#"{"allow": "SENSOR_.*", "__path__": ["/a"]}"#).unwrap();
    config.network_interface = Some("1.2.3.4".to_string());
    let copy = config.clone();
    assert_eq!(copy.lcm_url, config.lcm_url);
    assert_eq!(copy.key_prefix, config.key_prefix);
    assert_eq!(serialize_allow(&copy.allow), "SENSOR_.*");
    assert!(copy.deny.is_none());
    assert_eq!(copy.network_interface, config.network_interface);
    assert_eq!(copy.__path__, config.__path__);
}
