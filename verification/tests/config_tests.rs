use rss_ai::config::{override_bool, override_u16, override_u32, override_u64};
use rss_ai::config::{
    validate_settings, ConfigError, EnvOverrides, McpConfig, OutsideChecks, PollingConfig,
    ServiceConfig,
};

fn no_env() -> EnvOverrides {
    EnvOverrides {
        service_data_dir: None,
        service_log_level: None,
        polling_default_interval_minutes: None,
        polling_max_concurrent_fetches: None,
        llm_api_base_url: None,
        llm_model: None,
        llm_embedding_model: None,
        llm_embedding_dimensions: None,
        llm_max_tokens: None,
        llm_temperature: None,
        extraction_user_agent: None,
        extraction_request_timeout_seconds: None,
        extraction_max_article_size_bytes: None,
        mcp_stdio_enabled: None,
        mcp_sse_enabled: None,
        mcp_sse_host: None,
        mcp_sse_port: None,
    }
}

fn test_service() -> ServiceConfig {
    let mut s = ServiceConfig::default();
    s.data_dir = "/tmp/rss-ai-test".to_string();
    s
}

fn checks_ok() -> OutsideChecks {
    OutsideChecks {
        data_dir_creatable: true,
        data_dir_display: "/tmp/rss-ai-test".to_string(),
        temperature_in_range: true,
        temperature_display: "0.7".to_string(),
    }
}

fn validation_message(r: Result<(), ConfigError>) -> String {
    match r {
        Err(ConfigError::Validation(msg)) => msg,
        Err(_) => panic!("expected a validation error"),
        Ok(()) => panic!("expected an error"),
    }
}

#[test]
fn default_config_validates() {
    let r = validate_settings(
        &test_service(),
        &PollingConfig::default(),
        "http://localhost:11434",
        &McpConfig::default(),
        &checks_ok(),
    );
    assert!(r.is_ok());
}

#[test]
fn bad_url_fails_validation() {
    let r = validate_settings(
        &test_service(),
        &PollingConfig::default(),
        "not a url",
        &McpConfig::default(),
        &checks_ok(),
    );
    let msg = validation_message(r);
    assert!(msg.contains("api_base_url"));
    assert_eq!(msg, "invalid api_base_url: 'not a url'");
}

#[test]
fn bad_interval_fails_validation() {
    let mut polling = PollingConfig::default();
    polling.default_interval_minutes = 0;
    let r = validate_settings(
        &test_service(),
        &polling,
        "http://localhost:11434",
        &McpConfig::default(),
        &checks_ok(),
    );
    assert!(validation_message(r).contains("interval"));
}

#[test]
fn bad_log_level_fails_validation() {
    let mut service = test_service();
    service.log_level = "verbose".to_string();
    let r = validate_settings(
        &service,
        &PollingConfig::default(),
        "http://localhost:11434",
        &McpConfig::default(),
        &checks_ok(),
    );
    assert!(validation_message(r).contains("log_level"));
}

#[test]
fn bad_temperature_fails_validation() {
    let mut checks = checks_ok();
    checks.temperature_in_range = false;
    checks.temperature_display = "3".to_string();
    let r = validate_settings(
        &test_service(),
        &PollingConfig::default(),
        "http://localhost:11434",
        &McpConfig::default(),
        &checks,
    );
    let msg = validation_message(r);
    assert!(msg.contains("temperature"));
    assert_eq!(msg, "temperature must be between 0.0 and 2.0, got 3");
}

#[test]
fn uppercase_log_level_is_accepted() {
    let mut service = test_service();
    service.log_level = "DEBUG".to_string();
    let r = validate_settings(
        &service,
        &PollingConfig::default(),
        "http://localhost:11434",
        &McpConfig::default(),
        &checks_ok(),
    );
    assert!(r.is_ok());
}

#[test]
fn empty_sse_host_fails_validation() {
    let mut mcp = McpConfig::default();
    mcp.sse_host = String::new();
    let r = validate_settings(
        &test_service(),
        &PollingConfig::default(),
        "http://localhost:11434",
        &mcp,
        &checks_ok(),
    );
    assert_eq!(validation_message(r), "sse_host must not be empty");
}

#[test]
fn missing_data_dir_ancestor_fails_first() {
    let mut checks = checks_ok();
    checks.data_dir_creatable = false;
    checks.data_dir_display = "/nonexistent/root".to_string();
    let mut polling = PollingConfig::default();
    polling.default_interval_minutes = 0;
    let r = validate_settings(&test_service(), &polling, "bad", &McpConfig::default(), &checks);
    assert_eq!(validation_message(r), "no ancestor of data_dir exists: /nonexistent/root");
}

#[test]
fn env_overrides_apply() {
    let mut service = ServiceConfig::default();
    let mut polling = PollingConfig::default();
    let mut mcp = McpConfig::default();
    let mut env = no_env();
    env.service_log_level = Some("debug".to_string());
    env.polling_default_interval_minutes = Some("60".to_string());
    env.llm_temperature = Some("0.3".to_string());
    env.mcp_sse_port = Some("9090".to_string());

    service.apply_env_overrides(&env);
    polling.apply_env_overrides(&env);
    mcp.apply_env_overrides(&env);

    assert_eq!(service.log_level, "debug");
    assert_eq!(polling.default_interval_minutes, 60);
    assert_eq!(mcp.sse_port, 9090);
}

#[test]
fn bad_numeric_env_override_ignored() {
    let mut polling = PollingConfig::default();
    let mut env = no_env();
    env.polling_default_interval_minutes = Some("not_a_number".to_string());

    polling.apply_env_overrides(&env);

    assert_eq!(polling.default_interval_minutes, 30);
}

#[test]
fn boolean_and_out_of_range_overrides() {
    let mut mcp = McpConfig::default();
    let mut env = no_env();
    env.mcp_sse_enabled = Some("true".to_string());
    env.mcp_stdio_enabled = Some("yes".to_string());
    env.mcp_sse_port = Some("70000".to_string());
    mcp.apply_env_overrides(&env);
    assert!(mcp.sse_enabled);
    assert!(mcp.stdio_enabled);
    assert_eq!(mcp.sse_port, 8080);
}

#[test]
fn extraction_defaults() {
    let e = rss_ai::config::ExtractionConfig::default();
    assert_eq!(e.user_agent, "rss-ai/0.4.0");
    assert_eq!(e.request_timeout_seconds, 30);
    assert_eq!(e.max_article_size_bytes, 5_242_880);
}

#[test]
fn numeric_overrides_read_as_str_parse_does() {
    let inputs = [
        "0", "7", "+7", "007", "65535", "65536", "4294967295", "4294967296",
        "18446744073709551615", "18446744073709551616", "", "+", "-1", "-0", " 5", "5 ",
        "1_000", "12a", "+-3", "++3",
    ];
    for s in inputs {
        let v = Some(s.to_string());
        assert_eq!(override_u16(9, &v), s.parse::<u16>().unwrap_or(9), "u16 {s:?}");
        assert_eq!(override_u32(9, &v), s.parse::<u32>().unwrap_or(9), "u32 {s:?}");
        assert_eq!(override_u64(9, &v), s.parse::<u64>().unwrap_or(9), "u64 {s:?}");
    }
    for s in ["true", "false", "True", "1", "", "true "] {
        let v = Some(s.to_string());
        assert_eq!(override_bool(false, &v), s.parse::<bool>().unwrap_or(false), "{s:?}");
        assert_eq!(override_bool(true, &v), s.parse::<bool>().unwrap_or(true), "{s:?}");
    }
}
