use std::collections::HashSet;

use entstrip::keys::{is_provisioned_key, provisioned_entitlements};

#[test]
fn test_provisioned_entitlements_sorted() {
    let keys = provisioned_entitlements();
    assert!(keys.is_sorted());
}

#[test]
fn test_provisioned_entitlements_unique() {
    let keys = provisioned_entitlements();
    let unique: HashSet<&String> = keys.iter().collect();
    assert_eq!(unique.len(), keys.len());
}

#[test]
fn test_provisioned_entitlements_contents() {
    let keys = provisioned_entitlements();
    assert_eq!(keys.len(), 13);
    assert_eq!(keys[0], "beta-reports-active");
    assert_eq!(keys[12], "keychain-access-groups");
    assert!(keys.contains(&"com.apple.developer.team-identifier".to_string()));
}

#[test]
fn test_is_provisioned_key() {
    assert!(is_provisioned_key(&"keychain-access-groups".to_string()));
    assert!(is_provisioned_key(&"com.apple.application-identifier".to_string()));
    assert!(!is_provisioned_key(&"com.apple.security.device.camera".to_string()));
    assert!(!is_provisioned_key(&"".to_string()));
    assert!(!is_provisioned_key(&"keychain-access-groups2".to_string()));
}
