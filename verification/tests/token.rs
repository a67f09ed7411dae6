use azenv::auth::{effective_now, Auth};
use azenv::share_structs::Properties;
use azenv::webapp::Webapp;

fn credential(token: &str, expires_on: u64) -> Auth {
    Auth {
        access_token: token.to_string(),
        expires_on,
        token_type: "Bearer".to_string(),
    }
}

#[test]
fn bearer_before_expiry_returns_the_cached_token() {
    let mut auth = credential("tok", 100);
    // `None`: the issuing process was not invoked.
    let r = auth.get_valid_bearer(100, None);
    assert_eq!(r.unwrap(), "Bearer tok");
    assert_eq!(auth.access_token, "tok");
    assert_eq!(auth.expires_on, 100);
}

#[test]
fn bearer_after_expiry_applies_exactly_one_refresh() {
    let mut auth = credential("stale", 100);
    let fresh = credential("fresh", 200);
    let r = auth.get_valid_bearer(101, Some(fresh));
    assert_eq!(r.unwrap(), "Bearer fresh");
    assert_eq!(auth.access_token, "fresh");
    assert_eq!(auth.expires_on, 200);
    assert_eq!(auth.token_type, "Bearer");
}

#[test]
fn bearer_after_expiry_without_a_refresh_fails_and_keeps_state() {
    let mut auth = credential("stale", 100);
    let r = auth.get_valid_bearer(101, None);
    assert!(r.is_err());
    assert_eq!(r.err().unwrap().message, "token refresh failed");
    assert_eq!(auth.access_token, "stale");
    assert_eq!(auth.expires_on, 100);
}

#[test]
fn needs_refresh_compares_expiry_to_now() {
    let auth = credential("tok", 100);
    assert!(!auth.needs_refresh(99));
    assert!(!auth.needs_refresh(100));
    assert!(auth.needs_refresh(101));
}

#[test]
fn zeroed_credential_is_expired_at_any_positive_time() {
    let auth = Auth::default();
    assert_eq!(auth.access_token, "");
    assert_eq!(auth.expires_on, 0);
    assert!(auth.needs_refresh(1));
}

#[test]
fn bearer_formats_the_header_value() {
    let auth = credential("abc", 0);
    assert_eq!(auth.bearer(), "Bearer abc");
}

#[test]
fn clock_failure_counts_as_expired() {
    assert_eq!(effective_now(Some(7)), 7);
    assert_eq!(effective_now(None), u64::MAX);
    let mut auth = credential("tok", u64::MAX - 1);
    // A clock failure forces a refresh even of a far-future credential.
    assert!(auth.get_valid_bearer(effective_now(None), None).is_err());
}

#[test]
fn attach_subscription_stamps_every_webapp() {
    let items = vec![
        Properties {
            properties: Webapp {
                subscription: None,
                name: "site-a".to_string(),
                resource_group: "rg-1".to_string(),
            },
        },
        Properties {
            properties: Webapp {
                subscription: None,
                name: "site-b".to_string(),
                resource_group: "rg-2".to_string(),
            },
        },
    ];
    let r = Webapp::attach_subscription(items, "sub-1");
    assert_eq!(r.len(), 2);
    assert_eq!(r[0].name, "site-a");
    assert_eq!(r[0].resource_group, "rg-1");
    assert_eq!(r[0].subscription.as_deref(), Some("sub-1"));
    assert_eq!(r[1].name, "site-b");
    assert_eq!(r[1].subscription.as_deref(), Some("sub-1"));
}
