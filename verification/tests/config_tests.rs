use locallink::config::{
    add_trusted_device, app_dir, app_paths, mac_is_trusted, normalize_mac, psk_bytes, register_device_id_for_macs,
    remove_trusted_mac, trusted_name_for_macs, validate_psk_b64, generate_psk_b64, repair_startup, config_error_message, Config, ConfigError, StartupPreferences, TrustedDevice,
};

fn device(name: &str, macs: &[&str], device_id: Option<&str>, blocked: bool) -> TrustedDevice {
    TrustedDevice {
        name: name.to_string(),
        macs: macs.iter().map(|m| m.to_string()).collect(),
        device_id: device_id.map(|d| d.to_string()),
        blocked,
    }
}

#[test]
fn normalize_mac_accepts_any_separator_and_case() {
    assert_eq!(normalize_mac("AA-BB-CC-DD-EE-FF"), "aa:bb:cc:dd:ee:ff");
    assert_eq!(normalize_mac("aabb.ccdd.eeff"), "aa:bb:cc:dd:ee:ff");
    assert_eq!(normalize_mac(" 00:11:22:33:44:5A "), "00:11:22:33:44:5a");
}

#[test]
fn normalize_mac_rejects_wrong_digit_count() {
    assert_eq!(normalize_mac("AA-BB-CC"), "");
    assert_eq!(normalize_mac("AA-BB-CC-DD-EE-FF-00"), "");
    assert_eq!(normalize_mac(""), "");
}

#[test]
fn app_dir_joins_without_doubling_the_separator() {
    assert_eq!(app_dir("C:\\Users\\me\\AppData\\Roaming", '\\'), "C:\\Users\\me\\AppData\\Roaming\\LocalLink");
    assert_eq!(app_dir("/home/me/", '/'), "/home/me/LocalLink");
    assert_eq!(app_dir("", '/'), "LocalLink");
}

#[test]
fn app_paths_lie_under_the_app_dir() {
    let paths = app_paths("/data", '/');
    assert_eq!(paths.app_dir, "/data/LocalLink");
    assert_eq!(paths.config_file, "/data/LocalLink/config.json");
    assert_eq!(paths.trusted_devices_file, "/data/LocalLink/trusted-devices.json");
    assert_eq!(paths.addons_dir, "/data/LocalLink/addons");
    assert_eq!(paths.logs_dir, "/data/LocalLink/logs");
}

#[test]
fn add_trusted_device_rejects_invalid_mac() {
    let r = add_trusted_device(Vec::new(), "Laptop".to_string(), "not-a-mac".to_string());
    assert!(matches!(r, Err(ConfigError::InvalidMac)));
}

#[test]
fn add_trusted_device_adds_new_device_in_canonical_form() {
    let r = add_trusted_device(Vec::new(), "Laptop".to_string(), "AA-BB-CC-DD-EE-FF".to_string())
        .ok()
        .expect("valid address");
    assert_eq!(r.len(), 1);
    assert_eq!(r[0].name, "Laptop");
    assert_eq!(r[0].macs, vec!["aa:bb:cc:dd:ee:ff".to_string()]);
    assert!(!r[0].blocked);
}

#[test]
fn add_trusted_device_renames_and_unblocks_known_address() {
    let devices = vec![device("Old", &["aa:bb:cc:dd:ee:ff"], Some("dev-1"), true)];
    let r = add_trusted_device(devices, "New".to_string(), "AABBCCDDEEFF".to_string())
        .ok()
        .expect("valid address");
    assert_eq!(r.len(), 1);
    assert_eq!(r[0].name, "New");
    assert!(!r[0].blocked);
    assert_eq!(r[0].device_id.as_deref(), Some("dev-1"));
}

#[test]
fn remove_trusted_mac_drops_devices_left_without_addresses() {
    let devices = vec![
        device("One", &["aa:bb:cc:dd:ee:ff"], None, false),
        device("Two", &["aa:bb:cc:dd:ee:ff", "00:11:22:33:44:55"], None, false),
    ];
    let r = remove_trusted_mac(&devices, "AA-BB-CC-DD-EE-FF");
    assert_eq!(r.len(), 1);
    assert_eq!(r[0].name, "Two");
    assert_eq!(r[0].macs, vec!["00:11:22:33:44:55".to_string()]);
}

#[test]
fn trust_lookups_skip_blocked_devices() {
    let devices = vec![
        device("Blocked", &["aa:bb:cc:dd:ee:ff"], None, true),
        device("Desk", &["00:11:22:33:44:55"], None, false),
    ];
    let macs = vec!["AA-BB-CC-DD-EE-FF".to_string()];
    assert!(!mac_is_trusted(&devices, &macs));
    assert_eq!(trusted_name_for_macs(&devices, &macs), None);
    let desk = vec!["00-11-22-33-44-55".to_string()];
    assert!(mac_is_trusted(&devices, &desk));
    assert_eq!(trusted_name_for_macs(&devices, &desk), Some("Desk".to_string()));
}

#[test]
fn register_device_id_marks_matching_devices() {
    let devices = vec![
        device("Desk", &["00:11:22:33:44:55"], None, false),
        device("Other", &["aa:bb:cc:dd:ee:ff"], None, false),
    ];
    let (r, changed) = register_device_id_for_macs(&devices, &vec!["00-11-22-33-44-55".to_string()], "dev-9");
    assert!(changed);
    assert_eq!(r[0].device_id.as_deref(), Some("dev-9"));
    assert_eq!(r[1].device_id, None);
    let (_, unchanged) = register_device_id_for_macs(&devices, &vec!["12-34-56-78-9A-BC".to_string()], "dev-9");
    assert!(!unchanged);
}

#[test]
fn generated_psk_validates_and_decodes_to_32_bytes() {
    let psk = generate_psk_b64().unwrap();
    assert!(validate_psk_b64(&psk).is_ok());
    let cfg = Config { device_id: "d".to_string(), device_name: "n".to_string(), psk_b64: Some(psk), startup: StartupPreferences::default() };
    let bytes = psk_bytes(&cfg).ok().expect("generated key");
    assert_eq!(bytes.len(), 32);
}

#[test]
fn psk_errors_name_the_problem() {
    assert!(matches!(validate_psk_b64("not base64!"), Err(ConfigError::BadPskEncoding)));
    assert!(matches!(validate_psk_b64("AAAA"), Err(ConfigError::BadPskLength)));
    let cfg = Config { device_id: "d".to_string(), device_name: "n".to_string(), psk_b64: None, startup: StartupPreferences::default() };
    assert!(matches!(psk_bytes(&cfg), Err(ConfigError::NoPsk)));
}

#[test]
fn trusting_then_untrusting_an_address() {
    let macs = vec!["AA:BB:CC:DD:EE:FF".to_string()];
    let devices = add_trusted_device(Vec::new(), "Laptop".to_string(), "aa-bb-cc-dd-ee-ff".to_string())
        .ok()
        .expect("valid address");
    assert!(mac_is_trusted(&devices, &macs));
    let removed = remove_trusted_mac(&devices, "AABBCCDDEEFF");
    assert!(!mac_is_trusted(&removed, &macs));
    assert!(removed.is_empty());
}

#[test]
fn startup_preferences_keep_an_entry_point() {
    let default = StartupPreferences::default();
    assert!(default.launch_ui);
    assert!(!default.use_tray);
    let none = StartupPreferences { launch_ui: false, use_tray: false };
    assert_eq!(repair_startup(none), default);
    let tray_only = StartupPreferences { launch_ui: false, use_tray: true };
    assert_eq!(repair_startup(tray_only), tray_only);
    let both = StartupPreferences { launch_ui: true, use_tray: true };
    assert_eq!(repair_startup(both), both);
    assert_eq!(repair_startup(repair_startup(none)), repair_startup(none));
}

#[test]
fn config_errors_have_messages() {
    assert_eq!(config_error_message(&ConfigError::NoPsk), "No PSK configured");
    assert_eq!(config_error_message(&ConfigError::BadPskLength), "PSK must decode to exactly 32 bytes");
    assert_eq!(config_error_message(&ConfigError::InvalidMac), "MAC address must contain 12 hex digits");
}
