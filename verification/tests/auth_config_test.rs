use posixfy_bridge::auth::middleware::{authenticate, check_api_key};
use posixfy_bridge::config::{cors_policy, parse_cors_origins, AppConfig, CorsPolicy};
use posixfy_bridge::error::AppError;

const KEY: &str = "test-api-key";

#[test]
fn request_without_api_key_returns_401() {
    assert!(matches!(check_api_key(None, KEY), Err(AppError::Unauthorized)));
    assert!(matches!(check_api_key(Some("wrong"), KEY), Err(AppError::Unauthorized)));
}

#[test]
fn request_with_valid_api_key_returns_200() {
    assert!(check_api_key(Some(KEY), KEY).is_ok());
}

#[test]
fn identity_headers_are_read() {
    let auth = authenticate(Some(KEY), KEY, Some("1000"), Some("1000"), Some(" 10, x,20 ,"))
        .ok()
        .unwrap();
    assert_eq!(auth.uid, 1000);
    assert_eq!(auth.gid, 1000);
    assert_eq!(auth.groups, vec![10, 20]);
    let auth = authenticate(Some(KEY), KEY, Some("5"), Some("0"), None).ok().unwrap();
    assert!(auth.groups.is_empty());
}

#[test]
fn identity_errors_in_order() {
    assert!(matches!(
        authenticate(Some("bad"), KEY, Some("0"), None, None),
        Err(AppError::Unauthorized)
    ));
    match authenticate(Some(KEY), KEY, None, Some("1"), None) {
        Err(AppError::BadRequest(m)) => assert_eq!(m, "X-FS-UID header is required"),
        _ => panic!("expected a bad request"),
    }
    match authenticate(Some(KEY), KEY, Some("abc"), Some("1"), None) {
        Err(AppError::BadRequest(m)) => assert_eq!(m, "X-FS-UID header is required"),
        _ => panic!("expected a bad request"),
    }
    assert!(matches!(
        authenticate(Some(KEY), KEY, Some("0"), None, None),
        Err(AppError::Forbidden)
    ));
    match authenticate(Some(KEY), KEY, Some("1"), Some("4294967296"), None) {
        Err(AppError::BadRequest(m)) => assert_eq!(m, "X-FS-GID header is required"),
        _ => panic!("expected a bad request"),
    }
}

#[test]
fn config_defaults_and_values() {
    let c = AppConfig::from_values("k".to_string(), None, None, None);
    assert_eq!(c.api_key, "k");
    assert_eq!(c.listen_addr, "127.0.0.1:3000");
    assert_eq!(c.mount_points_raw, "");
    assert!(c.cors_origins.is_empty());
    let c = AppConfig::from_values(
        "k".to_string(),
        Some("0.0.0.0:80".to_string()),
        Some("a:/b".to_string()),
        Some(" https://a.example , ,https://b.example".to_string()),
    );
    assert_eq!(c.listen_addr, "0.0.0.0:80");
    assert_eq!(c.mount_points_raw, "a:/b");
    assert_eq!(c.cors_origins, vec!["https://a.example", "https://b.example"]);
}

#[test]
fn cors_policy_choices() {
    let mut c = AppConfig::from_values("k".to_string(), None, None, None);
    assert!(matches!(cors_policy(&c), CorsPolicy::Disabled));
    c.cors_origins = parse_cors_origins("*");
    assert!(matches!(cors_policy(&c), CorsPolicy::Permissive));
    c.cors_origins = parse_cors_origins("*,https://a.example");
    match cors_policy(&c) {
        CorsPolicy::Origins(o) => assert_eq!(o, vec!["*", "https://a.example"]),
        _ => panic!("expected a list of origins"),
    }
}
