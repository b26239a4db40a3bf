use locallink::addons::AddonRecord;
use locallink::instances::SpaceAddonInstanceSet;
use locallink::runtime::{
    plan_space_addon_instances, plan_space_addon_sync, SpaceAddonRuntimeContext,
};
use locallink::spaces::{SpaceAddonState, SpaceKind, SpaceRecord, SpaceStore};
use locallink::strmap::StrMap;
use locallink::strset::StrSet;

fn addon(id: &str) -> AddonRecord {
    AddonRecord {
        id: id.to_string(),
        name: format!("{id} add-on"),
        version: "1.0.0".to_string(),
        description: String::new(),
        executable: format!("{id}.exe"),
        services: Vec::new(),
        enabled: false,
        manifest_path: format!("addons/{id}/addon.toml"),
        addon_dir: format!("addons/{id}"),
    }
}

fn store_with_space(kind: SpaceKind, members: Vec<&str>, active: bool) -> SpaceStore {
    let mut addons = StrMap::new();
    addons.insert("clipboard".to_string(), SpaceAddonState { enabled: true });

    SpaceStore {
        spaces: vec![SpaceRecord {
            space_id: "office".to_string(),
            name: "Office".to_string(),
            kind,
            active,
            members: members.into_iter().map(str::to_string).collect(),
            addons,
        }],
    }
}

fn set_of(ids: &[&str]) -> StrSet {
    StrSet::from_vec(&ids.iter().map(|s| s.to_string()).collect())
}

fn env_value<'a>(context: &'a SpaceAddonRuntimeContext, key: &str) -> Option<&'a str> {
    context.env.get(key).map(String::as_str)
}

#[test]
fn plans_enabled_addons_for_active_spaces() {
    let store = store_with_space(SpaceKind::Group, vec!["desktop", "laptop"], true);
    let addons = vec![addon("clipboard")];
    let connected = set_of(&["desktop"]);

    let plans = plan_space_addon_instances(&store, &addons, &connected);

    assert_eq!(plans.len(), 1);
    assert_eq!(plans[0].instance_id, "office:clipboard");
    assert_eq!(plans[0].connected_members, vec!["desktop".to_string()]);
}

#[test]
fn runtime_context_sets_space_and_addon_env() {
    let store = store_with_space(SpaceKind::Group, vec!["desktop"], true);
    let addons = vec![addon("clipboard")];
    let connected = set_of(&["desktop"]);
    let plans = plan_space_addon_instances(&store, &addons, &connected);

    let context = plans[0].runtime_context("127.0.0.1:17345");

    assert_eq!(context.instance_id, "office:clipboard");
    assert_eq!(context.addon_id, "clipboard");
    assert_eq!(context.executable, "clipboard.exe");
    assert_eq!(env_value(&context, "LOCALLINK_ADDON_ID"), Some("clipboard"));
    assert_eq!(
        env_value(&context, "LOCALLINK_ADDON_INSTANCE_ID"),
        Some("office:clipboard")
    );
    assert_eq!(
        env_value(&context, "LOCALLINK_CORE_API_ADDR"),
        Some("127.0.0.1:17345")
    );
    assert_eq!(env_value(&context, "LOCALLINK_SPACE_ID"), Some("office"));
    assert_eq!(env_value(&context, "LOCALLINK_SPACE_KIND"), Some("group"));
    assert_eq!(env_value(&context, "LOCALLINK_SPACE_NAME"), Some("Office"));
}

#[test]
fn skips_inactive_spaces() {
    let store = store_with_space(SpaceKind::Direct, vec!["desktop"], false);
    let addons = vec![addon("clipboard")];
    let connected = StrSet::new();

    let plans = plan_space_addon_instances(&store, &addons, &connected);

    assert!(plans.is_empty());
}

#[test]
fn skips_disabled_desired_addons() {
    let mut store = store_with_space(SpaceKind::Group, vec!["desktop"], true);
    store
        .set_addon_enabled("office", "clipboard", false)
        .unwrap();
    let addons = vec![addon("clipboard")];
    let connected = set_of(&["desktop"]);

    let plans = plan_space_addon_instances(&store, &addons, &connected);

    assert!(plans.is_empty());
}

#[test]
fn skips_missing_addon_manifests() {
    let store = store_with_space(SpaceKind::Group, vec!["desktop"], true);
    let addons = Vec::new();
    let connected = set_of(&["desktop"]);

    let plans = plan_space_addon_instances(&store, &addons, &connected);

    assert!(plans.is_empty());
}

#[test]
fn sync_plan_starts_missing_instances() {
    let store = store_with_space(SpaceKind::Group, vec!["desktop"], true);
    let addons = vec![addon("clipboard")];
    let connected = set_of(&["desktop"]);
    let desired = plan_space_addon_instances(&store, &addons, &connected);
    let running = StrSet::new();

    let sync = plan_space_addon_sync(&desired, &running);

    assert_eq!(sync.start.len(), 1);
    assert!(sync.keep.is_empty());
    assert!(sync.stop.is_empty());
}

#[test]
fn sync_plan_keeps_matching_instances() {
    let store = store_with_space(SpaceKind::Group, vec!["desktop"], true);
    let addons = vec![addon("clipboard")];
    let connected = set_of(&["desktop"]);
    let desired = plan_space_addon_instances(&store, &addons, &connected);
    let running = set_of(&["office:clipboard"]);

    let sync = plan_space_addon_sync(&desired, &running);

    assert!(sync.start.is_empty());
    assert_eq!(sync.keep.len(), 1);
    assert!(sync.stop.is_empty());
}

#[test]
fn sync_plan_stops_orphaned_instances() {
    let desired = Vec::new();
    let running = set_of(&["office:clipboard"]);

    let sync = plan_space_addon_sync(&desired, &running);

    assert!(sync.start.is_empty());
    assert!(sync.keep.is_empty());
    assert_eq!(sync.stop, vec!["office:clipboard".to_string()]);
}

#[test]
fn applying_the_sync_plan_leaves_the_desired_instances_running() {
    let store = store_with_space(SpaceKind::Group, vec!["desktop"], true);
    let addons = vec![addon("clipboard"), addon("files")];
    let connected = set_of(&["desktop"]);
    let desired = plan_space_addon_instances(&store, &addons, &connected);
    let mut running = SpaceAddonInstanceSet::new();
    running.replace(vec!["office:clipboard".to_string(), "office:stale".to_string()]);

    let sync = plan_space_addon_sync(&desired, &running.snapshot());
    running.apply_sync_plan(&sync);

    let mut wanted: Vec<String> = desired.iter().map(|p| p.instance_id.clone()).collect();
    wanted.sort();
    assert_eq!(running.sorted_ids(), wanted);
    assert_eq!(sync.stop, vec!["office:stale".to_string()]);
}

#[test]
fn runtime_context_lists_connected_members() {
    let store = store_with_space(SpaceKind::Group, vec!["desktop", "laptop", "phone"], true);
    let addons = vec![addon("clipboard")];
    let connected = set_of(&["desktop", "phone"]);
    let plans = plan_space_addon_instances(&store, &addons, &connected);

    let context = plans[0].runtime_context("127.0.0.1:17345");
    assert_eq!(env_value(&context, "LOCALLINK_CONNECTED_MEMBERS"), Some("desktop,phone"));

    let lonely = plan_space_addon_instances(&store, &addons, &set_of(&[]));
    let context = lonely[0].runtime_context("127.0.0.1:17345");
    assert_eq!(env_value(&context, "LOCALLINK_CONNECTED_MEMBERS"), Some(""));
}
