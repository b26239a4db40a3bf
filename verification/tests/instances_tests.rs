use locallink::instances::SpaceAddonInstanceSet;
use locallink::runtime::{SpaceAddonInstancePlan, SpaceAddonSyncPlan};
use locallink::spaces::SpaceKind;

fn plan(instance_id: &str) -> SpaceAddonInstancePlan {
    SpaceAddonInstancePlan {
        instance_id: instance_id.to_string(),
        space_id: "office".to_string(),
        space_name: "Office".to_string(),
        space_kind: SpaceKind::Group,
        addon_id: "clipboard".to_string(),
        addon_name: "Clipboard".to_string(),
        executable: "clipboard.exe".to_string(),
        connected_members: Vec::new(),
    }
}

#[test]
fn new_set_is_empty() {
    let set = SpaceAddonInstanceSet::new();

    assert!(set.is_empty());
    assert_eq!(set.len(), 0);
}

#[test]
fn mark_present_dedupes_instance_ids() {
    let mut set = SpaceAddonInstanceSet::new();

    assert!(set.mark_present("office:clipboard"));
    assert!(!set.mark_present("office:clipboard"));

    assert_eq!(set.len(), 1);
    assert!(set.contains("office:clipboard"));
}

#[test]
fn mark_present_trims_instance_ids() {
    let mut set = SpaceAddonInstanceSet::new();

    assert!(set.mark_present(" office:clipboard "));

    assert!(set.contains("office:clipboard"));
    assert!(!set.contains(" office:clipboard "));
}

#[test]
fn mark_absent_removes_instance_ids() {
    let mut set = SpaceAddonInstanceSet::new();
    set.mark_present("office:clipboard");

    assert!(set.mark_absent("office:clipboard"));
    assert!(!set.contains("office:clipboard"));
}

#[test]
fn apply_sync_plan_marks_started_and_kept_instances_present() {
    let mut set = SpaceAddonInstanceSet::new();
    let sync_plan = SpaceAddonSyncPlan {
        start: vec![plan("office:clipboard")],
        keep: vec![plan("office:files")],
        stop: Vec::new(),
    };

    set.apply_sync_plan(&sync_plan);

    assert_eq!(
        set.sorted_ids(),
        vec!["office:clipboard".to_string(), "office:files".to_string()]
    );
}

#[test]
fn apply_sync_plan_removes_stopped_instances() {
    let mut set = SpaceAddonInstanceSet::new();
    set.mark_present("office:clipboard");
    set.mark_present("office:files");
    let sync_plan = SpaceAddonSyncPlan {
        start: Vec::new(),
        keep: vec![plan("office:clipboard")],
        stop: vec!["office:files".to_string()],
    };

    set.apply_sync_plan(&sync_plan);

    assert_eq!(set.sorted_ids(), vec!["office:clipboard".to_string()]);
}

#[test]
fn replace_trims_and_drops_empty_ids() {
    let mut set = SpaceAddonInstanceSet::new();

    set.replace(vec![
        " office:clipboard ".to_string(),
        "".to_string(),
        "desk:files".to_string(),
    ]);

    assert_eq!(
        set.sorted_ids(),
        vec!["desk:files".to_string(), "office:clipboard".to_string()]
    );
}
