use entstrip::dict::{
    get_provisioned_entitlements, remove_provisioned_entitlements, Entitlements, FilterError,
    PlistRoot,
};

fn entry(key: &str, value: plist::Value) -> (String, plist::Value) {
    (key.to_string(), value)
}

fn s(text: &str) -> plist::Value {
    plist::Value::String(text.to_string())
}

fn keys_of(e: &Entitlements) -> Vec<String> {
    e.entries().iter().map(|p| p.0.clone()).collect()
}

#[test]
fn test_remove_provisioned_entitlements() {
    let dict = Entitlements::from_entries(vec![
        entry(
            "com.apple.application-identifier",
            s("AAAAAAAAAA.com.example.example"),
        ),
        entry("com.apple.developer.aps-environment", s("production")),
        entry("com.apple.developer.team-identifier", s("AAAAAAAAAA")),
        entry(
            "com.apple.security.automation.apple-events",
            plist::Value::Boolean(true),
        ),
        entry(
            "com.apple.security.device.audio-input",
            plist::Value::Boolean(true),
        ),
        entry(
            "com.apple.security.device.camera",
            plist::Value::Boolean(true),
        ),
    ]);
    let stripped = remove_provisioned_entitlements(PlistRoot::Dict(dict)).unwrap();
    assert_eq!(
        keys_of(&stripped),
        [
            "com.apple.security.automation.apple-events",
            "com.apple.security.device.audio-input",
            "com.apple.security.device.camera",
        ]
    );
    for p in stripped.entries() {
        assert_eq!(p.1, plist::Value::Boolean(true));
    }
}

#[test]
fn test_list_provisioned_entitlements() {
    let dict = Entitlements::from_entries(vec![
        entry(
            "com.apple.application-identifier",
            s("AAAAAAAAAA.com.example.example"),
        ),
        entry("com.apple.developer.aps-environment", s("production")),
        entry("com.apple.developer.team-identifier", s("AAAAAAAAAA")),
        entry(
            "com.apple.security.automation.apple-events",
            plist::Value::Boolean(true),
        ),
        entry(
            "com.apple.security.device.audio-input",
            plist::Value::Boolean(true),
        ),
        entry(
            "com.apple.security.device.camera",
            plist::Value::Boolean(true),
        ),
    ]);
    assert_eq!(
        get_provisioned_entitlements(&PlistRoot::Dict(dict)).unwrap(),
        [
            "com.apple.application-identifier",
            "com.apple.developer.aps-environment",
            "com.apple.developer.team-identifier",
        ]
    );
}

#[test]
fn test_strip_scenario() {
    let dict = Entitlements::from_entries(vec![
        entry("com.apple.application-identifier", s("TEAMID.com.example.app")),
        entry("com.apple.developer.aps-environment", s("production")),
        entry("com.apple.developer.team-identifier", s("TEAMID")),
        entry(
            "com.apple.security.device.camera",
            plist::Value::Boolean(true),
        ),
    ]);
    let listed = get_provisioned_entitlements(&PlistRoot::Dict(Entitlements::from_entries(
        dict.entries().clone(),
    )))
    .unwrap();
    assert_eq!(
        listed,
        [
            "com.apple.application-identifier",
            "com.apple.developer.aps-environment",
            "com.apple.developer.team-identifier",
        ]
    );
    let stripped = remove_provisioned_entitlements(PlistRoot::Dict(dict)).unwrap();
    assert_eq!(stripped.entries().len(), 1);
    assert_eq!(stripped.entries()[0].0, "com.apple.security.device.camera");
    assert_eq!(stripped.entries()[0].1, plist::Value::Boolean(true));
}

#[test]
fn test_strip_without_provisioned_keys_is_identity() {
    let entries = vec![
        entry("com.apple.security.device.camera", plist::Value::Boolean(true)),
        entry("custom-key", s("value")),
    ];
    let dict = Entitlements::from_entries(entries.clone());
    let listed = get_provisioned_entitlements(&PlistRoot::Dict(Entitlements::from_entries(
        entries.clone(),
    )))
    .unwrap();
    assert!(listed.is_empty());
    let stripped = remove_provisioned_entitlements(PlistRoot::Dict(dict)).unwrap();
    assert_eq!(stripped.entries(), &entries);
}

#[test]
fn test_strip_is_idempotent() {
    let dict = Entitlements::from_entries(vec![
        entry("keychain-access-groups", s("TEAMID.*")),
        entry("custom-key", s("value")),
        entry("beta-reports-active", plist::Value::Boolean(true)),
    ]);
    let once = remove_provisioned_entitlements(PlistRoot::Dict(dict)).unwrap();
    let first = once.entries().clone();
    let twice = remove_provisioned_entitlements(PlistRoot::Dict(once)).unwrap();
    assert_eq!(twice.entries(), &first);
}

#[test]
fn test_strip_preserves_order_and_values() {
    let dict = Entitlements::from_entries(vec![
        entry("z-key", plist::Value::Integer(3.into())),
        entry("com.apple.developer.weatherkit", plist::Value::Boolean(true)),
        entry("a-key", s("alpha")),
        entry("com.apple.developer.icloud-services", s("CloudKit")),
        entry("m-key", plist::Value::Boolean(false)),
    ]);
    let stripped = remove_provisioned_entitlements(PlistRoot::Dict(dict)).unwrap();
    assert_eq!(keys_of(&stripped), ["z-key", "a-key", "m-key"]);
    assert_eq!(stripped.entries()[0].1, plist::Value::Integer(3.into()));
    assert_eq!(stripped.entries()[1].1, s("alpha"));
    assert_eq!(stripped.entries()[2].1, plist::Value::Boolean(false));
}

#[test]
fn test_list_present_follows_key_set_order() {
    let dict = Entitlements::from_entries(vec![
        entry("keychain-access-groups", s("TEAMID.*")),
        entry("com.apple.application-identifier", s("TEAMID.app")),
        entry("beta-reports-active", plist::Value::Boolean(true)),
    ]);
    assert_eq!(
        get_provisioned_entitlements(&PlistRoot::Dict(dict)).unwrap(),
        [
            "beta-reports-active",
            "com.apple.application-identifier",
            "keychain-access-groups",
        ]
    );
}

#[test]
fn test_non_dictionary_root_is_refused() {
    let root = PlistRoot::Other(plist::Value::Array(vec![s("a")]));
    assert_eq!(
        get_provisioned_entitlements(&root),
        Err(FilterError::NotADictionary)
    );
    assert_eq!(
        remove_provisioned_entitlements(root).err(),
        Some(FilterError::NotADictionary)
    );
}

#[test]
fn test_contains_key_and_len() {
    let dict = Entitlements::from_entries(vec![
        entry("one", plist::Value::Boolean(true)),
        entry("two", s("2")),
    ]);
    assert_eq!(dict.len(), 2);
    assert!(dict.contains_key(&"one".to_string()));
    assert!(dict.contains_key(&"two".to_string()));
    assert!(!dict.contains_key(&"three".to_string()));
}
