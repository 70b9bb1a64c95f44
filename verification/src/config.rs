//! Configuration sections, their defaults, environment overrides and
//! validation.
use vstd::prelude::*;

use crate::urls::{parse_url, parsed_url};

use crate::chars::str_eq;
use crate::parse::{parse_bool, parse_u16, parse_u32, parse_u64, parsed_bool, parsed_unsigned};
use crate::unicode::{lowercase, to_lowercase};

verus! {

/// Declares `toml::de::Error` so that errors can carry it.
#[verifier::external_type_specification]
#[verifier::external_body]
pub struct ExTomlDeError(toml::de::Error);

/// Declares `toml::ser::Error` so that errors can carry it.
#[verifier::external_type_specification]
#[verifier::external_body]
pub struct ExTomlSerError(toml::ser::Error);

/// Errors of loading and validating the configuration.
#[derive(Debug)]
pub enum ConfigError {
    Io(std::io::Error),
    Parse(toml::de::Error),
    Serialize(toml::ser::Error),
    Validation(String),
}

/// Where data lives and how much to log.
#[derive(Debug, Clone)]
pub struct ServiceConfig {
    pub data_dir: String,
    pub log_level: String,
}

/// How often feeds are polled and how many at once.
#[derive(Debug, Clone)]
pub struct PollingConfig {
    pub default_interval_minutes: u32,
    pub max_concurrent_fetches: u32,
}

/// How articles are fetched.
#[derive(Debug, Clone)]
pub struct ExtractionConfig {
    pub user_agent: String,
    pub request_timeout_seconds: u32,
    pub max_article_size_bytes: u64,
}

/// Model Context Protocol transports.
#[derive(Debug, Clone)]
pub struct McpConfig {
    pub stdio_enabled: bool,
    pub sse_enabled: bool,
    pub sse_host: String,
    pub sse_port: u16,
}

impl Default for ServiceConfig {
    fn default() -> (r: Self)
        ensures
            r.data_dir@ == "~/.local/share/rss-ai"@,
            r.log_level@ == "info"@,
    {
        ServiceConfig { data_dir: "~/.local/share/rss-ai".to_owned(), log_level: "info".to_owned() }
    }
}

impl Default for PollingConfig {
    fn default() -> (r: Self)
        ensures
            r.default_interval_minutes == 30,
            r.max_concurrent_fetches == 4,
    {
        PollingConfig { default_interval_minutes: 30, max_concurrent_fetches: 4 }
    }
}

impl Default for ExtractionConfig {
    fn default() -> (r: Self)
        ensures
            r.user_agent@ == "rss-ai/0.4.0"@,
            r.request_timeout_seconds == 30,
            r.max_article_size_bytes == 5_242_880,
    {
        ExtractionConfig {
            user_agent: "rss-ai/0.4.0".to_owned(),
            request_timeout_seconds: 30,
            max_article_size_bytes: 5_242_880,
        }
    }
}

impl Default for McpConfig {
    fn default() -> (r: Self)
        ensures
            r.stdio_enabled,
            !r.sse_enabled,
            r.sse_host@ == "127.0.0.1"@,
            r.sse_port == 8080,
    {
        McpConfig {
            stdio_enabled: true,
            sse_enabled: false,
            sse_host: "127.0.0.1".to_owned(),
            sse_port: 8080,
        }
    }
}

// ── Environment overrides ───────────────────────────────────────────

/// Values of the `RSS_AI_<SECTION>_<KEY>` environment variables, `None`
/// where a variable is unset.
#[derive(Debug, Clone)]
pub struct EnvOverrides {
    pub service_data_dir: Option<String>,
    pub service_log_level: Option<String>,
    pub polling_default_interval_minutes: Option<String>,
    pub polling_max_concurrent_fetches: Option<String>,
    pub llm_api_base_url: Option<String>,
    pub llm_model: Option<String>,
    pub llm_embedding_model: Option<String>,
    pub llm_embedding_dimensions: Option<String>,
    pub llm_max_tokens: Option<String>,
    pub llm_temperature: Option<String>,
    pub extraction_user_agent: Option<String>,
    pub extraction_request_timeout_seconds: Option<String>,
    pub extraction_max_article_size_bytes: Option<String>,
    pub mcp_stdio_enabled: Option<String>,
    pub mcp_sse_enabled: Option<String>,
    pub mcp_sse_host: Option<String>,
    pub mcp_sse_port: Option<String>,
}

/// A text setting after an override: the variable's value when set.
pub open spec fn text_override(current: Seq<char>, value: Option<String>) -> Seq<char> {
    match value {
        Some(v) => v@,
        None => current,
    }
}

/// A numeric setting after an override: the parsed value when the variable
/// is set and parses, the current value otherwise.
pub open spec fn number_override(current: nat, value: Option<String>, max: nat) -> nat {
    match value {
        Some(v) => match parsed_unsigned(v@, max) {
            Some(n) => n,
            None => current,
        },
        None => current,
    }
}

/// A boolean setting after an override.
pub open spec fn bool_override(current: bool, value: Option<String>) -> bool {
    match value {
        Some(v) => match parsed_bool(v@) {
            Some(b) => b,
            None => current,
        },
        None => current,
    }
}

/// Replace a text setting when its variable is set.
pub fn override_text(current: &mut String, value: &Option<String>)
    ensures
        final(current)@ == text_override(old(current)@, *value),
{
    if let Some(v) = value {
        *current = v.clone();
    }
}

/// Replace a `u16` setting when its variable is set and parses.
pub fn override_u16(current: u16, value: &Option<String>) -> (r: u16)
    ensures
        r == number_override(current as nat, *value, u16::MAX as nat),
{
    match value {
        Some(v) => match parse_u16(v.as_str()) {
            Some(n) => n,
            None => current,
        },
        None => current,
    }
}

/// Replace a `u32` setting when its variable is set and parses.
pub fn override_u32(current: u32, value: &Option<String>) -> (r: u32)
    ensures
        r == number_override(current as nat, *value, u32::MAX as nat),
{
    match value {
        Some(v) => match parse_u32(v.as_str()) {
            Some(n) => n,
            None => current,
        },
        None => current,
    }
}

/// Replace a `u64` setting when its variable is set and parses.
pub fn override_u64(current: u64, value: &Option<String>) -> (r: u64)
    ensures
        r == number_override(current as nat, *value, u64::MAX as nat),
{
    match value {
        Some(v) => match parse_u64(v.as_str()) {
            Some(n) => n,
            None => current,
        },
        None => current,
    }
}

/// Replace a boolean setting when its variable is set and parses.
pub fn override_bool(current: bool, value: &Option<String>) -> (r: bool)
    ensures
        r == bool_override(current, *value),
{
    match value {
        Some(v) => match parse_bool(v.as_str()) {
            Some(b) => b,
            None => current,
        },
        None => current,
    }
}

impl ServiceConfig {
    /// Apply `RSS_AI_SERVICE_*` overrides.
    pub fn apply_env_overrides(&mut self, env: &EnvOverrides)
        ensures
            final(self).data_dir@ == text_override(old(self).data_dir@, env.service_data_dir),
            final(self).log_level@ == text_override(old(self).log_level@, env.service_log_level),
    {
        override_text(&mut self.data_dir, &env.service_data_dir);
        override_text(&mut self.log_level, &env.service_log_level);
    }
}

impl PollingConfig {
    /// Apply `RSS_AI_POLLING_*` overrides; values that do not parse are
    /// ignored.
    pub fn apply_env_overrides(&mut self, env: &EnvOverrides)
        ensures
            final(self).default_interval_minutes == number_override(
                old(self).default_interval_minutes as nat,
                env.polling_default_interval_minutes,
                u32::MAX as nat,
            ),
            final(self).max_concurrent_fetches == number_override(
                old(self).max_concurrent_fetches as nat,
                env.polling_max_concurrent_fetches,
                u32::MAX as nat,
            ),
    {
        self.default_interval_minutes = override_u32(
            self.default_interval_minutes,
            &env.polling_default_interval_minutes,
        );
        self.max_concurrent_fetches = override_u32(
            self.max_concurrent_fetches,
            &env.polling_max_concurrent_fetches,
        );
    }
}

impl ExtractionConfig {
    /// Apply `RSS_AI_EXTRACTION_*` overrides; values that do not parse are
    /// ignored.
    pub fn apply_env_overrides(&mut self, env: &EnvOverrides)
        ensures
            final(self).user_agent@ == text_override(
                old(self).user_agent@,
                env.extraction_user_agent,
            ),
            final(self).request_timeout_seconds == number_override(
                old(self).request_timeout_seconds as nat,
                env.extraction_request_timeout_seconds,
                u32::MAX as nat,
            ),
            final(self).max_article_size_bytes == number_override(
                old(self).max_article_size_bytes as nat,
                env.extraction_max_article_size_bytes,
                u64::MAX as nat,
            ),
    {
        override_text(&mut self.user_agent, &env.extraction_user_agent);
        self.request_timeout_seconds = override_u32(
            self.request_timeout_seconds,
            &env.extraction_request_timeout_seconds,
        );
        self.max_article_size_bytes = override_u64(
            self.max_article_size_bytes,
            &env.extraction_max_article_size_bytes,
        );
    }
}

impl McpConfig {
    /// Apply `RSS_AI_MCP_*` overrides; values that do not parse are ignored.
    pub fn apply_env_overrides(&mut self, env: &EnvOverrides)
        ensures
            final(self).stdio_enabled == bool_override(
                old(self).stdio_enabled,
                env.mcp_stdio_enabled,
            ),
            final(self).sse_enabled == bool_override(old(self).sse_enabled, env.mcp_sse_enabled),
            final(self).sse_host@ == text_override(old(self).sse_host@, env.mcp_sse_host),
            final(self).sse_port == number_override(
                old(self).sse_port as nat,
                env.mcp_sse_port,
                u16::MAX as nat,
            ),
    {
        self.stdio_enabled = override_bool(self.stdio_enabled, &env.mcp_stdio_enabled);
        self.sse_enabled = override_bool(self.sse_enabled, &env.mcp_sse_enabled);
        override_text(&mut self.sse_host, &env.mcp_sse_host);
        self.sse_port = override_u16(self.sse_port, &env.mcp_sse_port);
    }
}

// ── Validation ──────────────────────────────────────────────────────

/// Whether `url::Url::parse` accepts the text as an absolute URL.
pub open spec fn url_parses(s: Seq<char>) -> bool {
    parsed_url(s) is Some
}

/// Whether the text parses as an absolute URL.
pub fn is_valid_url(s: &str) -> (r: bool)
    ensures
        r == url_parses(s@),
{
    parse_url(s).is_some()
}

/// The log levels the service knows.
pub open spec fn known_log_level(l: Seq<char>) -> bool {
    l == "trace"@ || l == "debug"@ || l == "info"@ || l == "warn"@ || l == "error"@
}

/// Facts about the configuration that are decided outside: whether the data
/// directory can be created (some ancestor exists, or it is relative) with
/// the path shown in messages, and whether the sampling temperature lies in
/// 0.0..=2.0 with its value as shown in messages.
pub struct OutsideChecks {
    pub data_dir_creatable: bool,
    pub data_dir_display: String,
    pub temperature_in_range: bool,
    pub temperature_display: String,
}

/// The message of the first problem with the configuration, in the order
/// the checks run, or `None`.
pub open spec fn config_problem(
    service: ServiceConfig,
    polling: PollingConfig,
    api_base_url: Seq<char>,
    mcp: McpConfig,
    outside: OutsideChecks,
) -> Option<Seq<char>> {
    if !outside.data_dir_creatable {
        Some("no ancestor of data_dir exists: "@ + outside.data_dir_display@)
    } else if !known_log_level(lowercase(service.log_level@)) {
        Some(
            "invalid log_level '"@ + service.log_level@
                + "', expected one of: [\"trace\", \"debug\", \"info\", \"warn\", \"error\"]"@,
        )
    } else if polling.default_interval_minutes < 1 {
        Some("default_interval_minutes must be >= 1"@)
    } else if polling.max_concurrent_fetches < 1 {
        Some("max_concurrent_fetches must be >= 1"@)
    } else if !url_parses(api_base_url) {
        Some("invalid api_base_url: '"@ + api_base_url + "'"@)
    } else if !outside.temperature_in_range {
        Some("temperature must be between 0.0 and 2.0, got "@ + outside.temperature_display@)
    } else if mcp.sse_host@.len() == 0 {
        Some("sse_host must not be empty"@)
    } else {
        None
    }
}

/// Check the configuration: the data directory, the log level, the polling
/// minimums, the LLM API URL, the temperature and the SSE host, in that
/// order; the first problem found is reported as `Validation`.
pub fn validate_settings(
    service: &ServiceConfig,
    polling: &PollingConfig,
    api_base_url: &str,
    mcp: &McpConfig,
    outside: &OutsideChecks,
) -> (r: Result<(), ConfigError>)
    ensures
        match config_problem(*service, *polling, api_base_url@, *mcp, *outside) {
            Some(m) => r matches Err(ConfigError::Validation(msg)) && msg@ == m,
            None => r is Ok,
        },
{
    if !outside.data_dir_creatable {
        let mut msg = "no ancestor of data_dir exists: ".to_owned();
        msg.append(outside.data_dir_display.as_str());
        return Err(ConfigError::Validation(msg));
    }
    let level = to_lowercase(service.log_level.as_str());
    let l = level.as_str();
    let known = str_eq(l, "trace") || str_eq(l, "debug") || str_eq(l, "info") || str_eq(l, "warn")
        || str_eq(l, "error");
    if !known {
        let mut msg = "invalid log_level '".to_owned();
        msg.append(service.log_level.as_str());
        msg.append("', expected one of: [\"trace\", \"debug\", \"info\", \"warn\", \"error\"]");
        return Err(ConfigError::Validation(msg));
    }
    if polling.default_interval_minutes < 1 {
        return Err(ConfigError::Validation("default_interval_minutes must be >= 1".to_owned()));
    }
    if polling.max_concurrent_fetches < 1 {
        return Err(ConfigError::Validation("max_concurrent_fetches must be >= 1".to_owned()));
    }
    if !is_valid_url(api_base_url) {
        let mut msg = "invalid api_base_url: '".to_owned();
        msg.append(api_base_url);
        msg.append("'");
        return Err(ConfigError::Validation(msg));
    }
    if !outside.temperature_in_range {
        let mut msg = "temperature must be between 0.0 and 2.0, got ".to_owned();
        msg.append(outside.temperature_display.as_str());
        return Err(ConfigError::Validation(msg));
    }
    if mcp.sse_host.as_str().is_empty() {
        return Err(ConfigError::Validation("sse_host must not be empty".to_owned()));
    }
    Ok(())
}

} // verus!
