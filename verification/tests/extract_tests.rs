use entstrip::codec::entitlements_to_xml;
use entstrip::dict::Entitlements;
use entstrip::extract::{interpret_inspection, ExtractError, StreamName};

const DICT_XML: &str = r#"<?xml version="1.0" encoding="UTF-8"?>
<!DOCTYPE plist PUBLIC "-//Apple//DTD PLIST 1.0//EN" "http://www.apple.com/DTDs/PropertyList-1.0.dtd">
<plist version="1.0">
<dict>
    <key>com.apple.application-identifier</key>
    <string>AAAAAAAAAA.com.example.example</string>
    <key>com.apple.security.device.camera</key>
    <true/>
</dict>
</plist>"#;

const ARRAY_XML: &str = r#"<?xml version="1.0" encoding="UTF-8"?>
<!DOCTYPE plist PUBLIC "-//Apple//DTD PLIST 1.0//EN" "http://www.apple.com/DTDs/PropertyList-1.0.dtd">
<plist version="1.0">
<array>
    <string>not-a-dictionary</string>
</array>
</plist>"#;

#[test]
fn test_successful_inspection_parses_dictionary() {
    let r = interpret_inspection(Some(0), DICT_XML.as_bytes().to_vec(), Vec::new());
    let dict = r.unwrap();
    assert_eq!(dict.len(), 2);
    assert_eq!(dict.entries()[0].0, "com.apple.application-identifier");
    assert_eq!(
        dict.entries()[0].1,
        plist::Value::String("AAAAAAAAAA.com.example.example".to_string())
    );
    assert_eq!(dict.entries()[1].0, "com.apple.security.device.camera");
    assert_eq!(dict.entries()[1].1, plist::Value::Boolean(true));
}

#[test]
fn test_failed_inspection_carries_streams() {
    let r = interpret_inspection(
        Some(1),
        b"some stdout".to_vec(),
        b"codesign: invalid signature".to_vec(),
    );
    match r {
        Err(ExtractError::InspectionFailed {
            exit_code,
            stdout,
            stderr,
        }) => {
            assert_eq!(exit_code, Some(1));
            assert_eq!(stdout, "some stdout");
            assert_eq!(stderr, "codesign: invalid signature");
        }
        _ => panic!("expected InspectionFailed"),
    }
}

#[test]
fn test_inspection_killed_by_signal_fails() {
    let r = interpret_inspection(None, Vec::new(), Vec::new());
    match r {
        Err(ExtractError::InspectionFailed { exit_code, .. }) => {
            assert_eq!(exit_code, None);
        }
        _ => panic!("expected InspectionFailed"),
    }
}

#[test]
fn test_non_dictionary_root_is_malformed() {
    let r = interpret_inspection(Some(0), ARRAY_XML.as_bytes().to_vec(), Vec::new());
    assert!(matches!(
        r,
        Err(ExtractError::MalformedEntitlements { .. })
    ));
}

#[test]
fn test_unparseable_output_is_malformed() {
    let r = interpret_inspection(Some(0), b"not a plist at all".to_vec(), Vec::new());
    assert!(matches!(
        r,
        Err(ExtractError::MalformedEntitlements { .. })
    ));
}

#[test]
fn test_invalid_utf8_stdout_on_failure() {
    let r = interpret_inspection(Some(1), vec![0xff, 0xfe, 0x00], b"text".to_vec());
    match r {
        Err(ExtractError::InvalidProcessOutput { stream }) => {
            assert_eq!(stream, StreamName::Stdout);
        }
        _ => panic!("expected InvalidProcessOutput"),
    }
}

#[test]
fn test_invalid_utf8_stderr_on_failure() {
    let r = interpret_inspection(Some(1), b"text".to_vec(), vec![0xc0, 0x80]);
    match r {
        Err(ExtractError::InvalidProcessOutput { stream }) => {
            assert_eq!(stream, StreamName::Stderr);
        }
        _ => panic!("expected InvalidProcessOutput"),
    }
}

#[test]
fn test_xml_round_trip() {
    let dict = Entitlements::from_entries(vec![
        (
            "com.apple.security.device.camera".to_string(),
            plist::Value::Boolean(true),
        ),
        ("custom-key".to_string(), plist::Value::String("v".to_string())),
    ]);
    let xml = entitlements_to_xml(&dict).unwrap();
    let text = String::from_utf8(xml.clone()).unwrap();
    assert!(text.contains("com.apple.security.device.camera"));
    let reparsed = interpret_inspection(Some(0), xml, Vec::new()).unwrap();
    assert_eq!(reparsed.entries(), dict.entries());
}
