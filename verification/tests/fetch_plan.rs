use sarascript::error::SaraError;
use sarascript::fetch::{plan_fetch, user_agent};

#[test]
fn explicit_host_and_port() {
    let plan = plan_fetch(
        &b"http://example.org:8080/a/b?q=1".to_vec(),
        &b"https://fallback.example".to_vec(),
    )
    .expect("explicit authority must resolve");
    assert_eq!(plan.host, b"example.org".to_vec());
    assert_eq!(plan.port, 8080);
    assert!(!plan.use_tls);
    assert_eq!(plan.target, b"/a/b?q=1".to_vec());
}

#[test]
fn tls_follows_port_not_scheme() {
    // Port-based transport selection: no explicit port means the secure
    // port, and with it TLS, whatever the scheme says.
    let plan = plan_fetch(&b"http://h/p".to_vec(), &b"https://d".to_vec())
        .expect("must resolve");
    assert_eq!(plan.host, b"h".to_vec());
    assert_eq!(plan.port, 443);
    assert!(plan.use_tls);
}

#[test]
fn defaulted_host_takes_default_port() {
    let plan = plan_fetch(&b"/path".to_vec(), &b"http://fallback.example:9443".to_vec())
        .expect("defaulted authority must resolve");
    assert_eq!(plan.host, b"fallback.example".to_vec());
    assert_eq!(plan.port, 9443);
    assert!(!plan.use_tls);
    assert_eq!(plan.target, b"/path".to_vec());
}

#[test]
fn explicit_host_ignores_default_port() {
    let plan = plan_fetch(&b"http://h/p".to_vec(), &b"http://d:8000".to_vec())
        .expect("must resolve");
    assert_eq!(plan.host, b"h".to_vec());
    assert_eq!(plan.port, 443);
}

#[test]
fn missing_target_path_defaults_to_root() {
    let plan = plan_fetch(&b"http://h".to_vec(), &b"http://d".to_vec()).expect("must resolve");
    assert_eq!(plan.target, b"/".to_vec());
}

#[test]
fn no_host_anywhere_is_invalid() {
    let err = plan_fetch(&b"/x".to_vec(), &b"/y".to_vec()).unwrap_err();
    assert!(matches!(err, SaraError::InvalidUri));
}

#[test]
fn unparsable_uri_is_invalid() {
    let err = plan_fetch(&b"http://exa mple/".to_vec(), &b"http://d".to_vec()).unwrap_err();
    assert!(matches!(err, SaraError::InvalidUri));
    let err = plan_fetch(&vec![0xFFu8, 0xFE], &b"http://d".to_vec()).unwrap_err();
    assert!(matches!(err, SaraError::InvalidUri));
}

#[test]
fn fixed_user_agent() {
    assert_eq!(user_agent(), "sara/0.1.0");
}

#[test]
fn error_descriptions() {
    assert_eq!(
        SaraError::DnsResolution("h".to_string()).describe(),
        "dns resolution failed"
    );
    assert_eq!(SaraError::InvalidUri.describe(), "invalid uri");
    assert_eq!(
        SaraError::JoinError(2).describe(),
        "not able to join task handle(s)"
    );
}

#[test]
fn error_responses() {
    let (code, body) = SaraError::FileNotFound("/x".to_string()).to_response_parts();
    assert_eq!(code, 404);
    assert_eq!(body, "URL not available");
    let (code, _) = SaraError::HttpMethodUnsuported("PUT".to_string()).to_response_parts();
    assert_eq!(code, 405);
    let (code, _) = SaraError::HttpHostInvalid("h".to_string()).to_response_parts();
    assert_eq!(code, 400);
    let (code, body) = SaraError::DnsResolution("h".to_string()).to_response_parts();
    assert_eq!(code, 500);
    assert_eq!(body, "Failed to resolve DNS of host");
}
