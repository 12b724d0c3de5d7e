use mango::config::{base_url_root, load, ConfigRead, SiteConfig, DEFAULT_CONFIG_PATH};
use mango::error::MangoError;

fn parsed(base_url: Option<&str>) -> ConfigRead {
    ConfigRead::Parsed(SiteConfig {
        base_url: base_url.map(String::from),
        ..SiteConfig::default()
    })
}

#[test]
fn base_url_root_trims_trailing_slashes() {
    let with = |url: &str| SiteConfig {
        base_url: Some(url.into()),
        ..SiteConfig::default()
    };
    assert_eq!(
        base_url_root(&with("https://example.com/")),
        Some("https://example.com")
    );
    assert_eq!(
        base_url_root(&with("https://example.com//")),
        Some("https://example.com")
    );
    assert_eq!(
        base_url_root(&with("https://example.com")),
        Some("https://example.com")
    );
    assert_eq!(base_url_root(&SiteConfig::default()), None);
}

#[test]
fn missing_default_file_uses_defaults() {
    let config = load("mango.json", false, ConfigRead::Missing).unwrap();
    assert_eq!(config, SiteConfig::default());
    assert_eq!(config.title, None);
    assert_eq!(config.author, None);
    assert_eq!(config.description, None);
    assert_eq!(config.base_url, None);
    assert_eq!(config.recent_count, 10);
    assert_eq!(DEFAULT_CONFIG_PATH, "mango.json");
}

#[test]
fn explicit_missing_file_is_config_error_naming_path() {
    let path = "conf/nope.json";
    let err = load(path, true, ConfigRead::Missing).expect_err("explicit missing config must fail");
    assert!(matches!(err, MangoError::Config(_)), "{err:?}");
    assert_eq!(
        err.to_string(),
        "Mango Config Error: config file 'conf/nope.json' does not exist"
    );
}

#[test]
fn malformed_json_is_config_error_naming_path() {
    let bad = "{not valid json";
    let serde_msg = serde_json::from_str::<serde_json::Value>(bad)
        .unwrap_err()
        .to_string();
    let err = load("mango.json", false, ConfigRead::Malformed(serde_msg.clone()))
        .expect_err("malformed config must fail");
    assert!(matches!(err, MangoError::Config(_)), "{err:?}");
    let msg = err.to_string();
    assert!(msg.contains("mango.json"), "{msg}");
    assert!(msg.contains(&serde_msg), "expected '{serde_msg}' in: {msg}");
}

#[test]
fn unreadable_file_is_an_io_error_naming_path() {
    let err = load("mango.json", true, ConfigRead::Failed("denied".into())).expect_err("unreadable");
    assert_eq!(err.to_string(), "Mango I/O Error at 'mango.json': denied");
}

#[test]
fn partial_config_keeps_defaults() {
    let config = load(
        "mango.json",
        true,
        ConfigRead::Parsed(SiteConfig {
            title: Some("T".into()),
            ..SiteConfig::default()
        }),
    )
    .unwrap();
    assert_eq!(config.title.as_deref(), Some("T"));
    assert_eq!(config.author, None);
    assert_eq!(config.recent_count, 10);
}

#[test]
fn base_url_accepts_http_and_https() {
    for value in [
        "https://example.com",
        "https://example.com/",
        "http://localhost:8080",
    ] {
        let config = load("mango.json", true, parsed(Some(value))).unwrap();
        assert_eq!(config.base_url.as_deref(), Some(value), "kept as written");
    }
    assert_eq!(load("mango.json", true, parsed(None)).unwrap().base_url, None);
}

#[test]
fn base_url_rejects_other_values_naming_file_and_value() {
    for value in [
        "",
        "example.com",
        "ftp://example.com",
        "//example.com",
        "HTTPS://example.com",
    ] {
        let err = load("site/mango.json", true, parsed(Some(value))).expect_err(value);
        assert!(matches!(err, MangoError::Config(_)), "{value}: {err:?}");
        let msg = err.to_string();
        let expected = format!(
            "'site/mango.json': invalid base_url '{value}': must start with http:// or https://"
        );
        assert!(msg.contains(&expected), "{value}: {msg}");
    }
}
