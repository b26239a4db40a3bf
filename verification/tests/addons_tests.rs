use locallink::addons::{addon_record_from_manifest, addons_to_stop, sort_addons_by_name, AddonError, AddonManifest, AddonRecord};

fn manifest(id: &str, name: &str, version: &str) -> AddonManifest {
    AddonManifest {
        id: id.to_string(),
        name: name.to_string(),
        version: version.to_string(),
        description: String::new(),
        executable: "addon.exe".to_string(),
        services: vec!["chat".to_string()],
        enabled: true,
    }
}

fn record(id: &str, name: &str, enabled: bool, executable: &str) -> AddonRecord {
    AddonRecord {
        id: id.to_string(),
        name: name.to_string(),
        version: "1".to_string(),
        description: String::new(),
        executable: executable.to_string(),
        services: Vec::new(),
        enabled,
        manifest_path: String::new(),
        addon_dir: String::new(),
    }
}

#[test]
fn manifests_need_id_name_and_version() {
    assert!(matches!(addon_record_from_manifest(manifest(" ", "n", "1"), String::new(), String::new()), Err(AddonError::EmptyId)));
    assert!(matches!(addon_record_from_manifest(manifest("a", "", "1"), String::new(), String::new()), Err(AddonError::EmptyName)));
    assert!(matches!(addon_record_from_manifest(manifest("a", "n", " "), String::new(), String::new()), Err(AddonError::EmptyVersion)));
    let r = addon_record_from_manifest(manifest("chat", "Chat", "1.0"), "addons/chat/addon.toml".to_string(), "addons/chat".to_string())
        .ok()
        .expect("complete manifest");
    assert_eq!(r.id, "chat");
    assert_eq!(r.addon_dir, "addons/chat");
    assert_eq!(r.services, vec!["chat".to_string()]);
}

#[test]
fn addons_sort_by_name_keeping_ties_in_order() {
    let sorted = sort_addons_by_name(vec![
        record("b", "Zed", true, ""),
        record("c", "Alpha", true, ""),
        record("a", "Alpha", true, ""),
    ]);
    let ids: Vec<String> = sorted.into_iter().map(|r| r.id).collect();
    assert_eq!(ids, vec!["c".to_string(), "a".to_string(), "b".to_string()]);
}

#[test]
fn only_disabled_addons_with_an_executable_are_stopped() {
    let records = vec![
        record("on", "On", true, "on.exe"),
        record("off", "Off", false, "off.exe"),
        record("blank", "Blank", false, "  "),
    ];
    let ids: Vec<String> = addons_to_stop(&records).into_iter().map(|r| r.id).collect();
    assert_eq!(ids, vec!["off".to_string()]);
}
