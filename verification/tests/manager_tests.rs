use locallink::instances::SpaceAddonInstanceSet;
use locallink::manager::AddonManager;
use locallink::runtime::{SpaceAddonInstancePlan, SpaceAddonSyncPlan};
use locallink::spaces::SpaceKind;

fn plan(instance_id: &str) -> SpaceAddonInstancePlan {
    SpaceAddonInstancePlan {
        instance_id: instance_id.to_string(),
        space_id: "office".to_string(),
        space_name: "Office".to_string(),
        space_kind: SpaceKind::Group,
        addon_id: "clipboard".to_string(),
        addon_name: "Clipboard".to_string(),
        executable: "clipboard.exe".to_string(),
        connected_members: Vec::new(),
    }
}

fn sync_plan(start: &[&str], keep: &[&str], stop: &[&str]) -> SpaceAddonSyncPlan {
    SpaceAddonSyncPlan {
        start: start.iter().map(|id| plan(id)).collect(),
        keep: keep.iter().map(|id| plan(id)).collect(),
        stop: stop.iter().map(|id| id.to_string()).collect(),
    }
}

fn strings(ids: &[&str]) -> Vec<String> {
    ids.iter().map(|id| id.to_string()).collect()
}

#[test]
fn first_round_launches_every_start_once() {
    let mut manager = AddonManager::new();
    let mut instances = SpaceAddonInstanceSet::new();
    let actions = manager.plan_round(&mut instances, &sync_plan(&["office:a", "office:b", "office:a"], &[], &[]), &Vec::new());
    assert!(actions.kill.is_empty());
    assert_eq!(actions.launch, vec![0, 1]);
}

#[test]
fn failed_launches_are_not_retried_while_wanted() {
    let mut manager = AddonManager::new();
    let mut instances = SpaceAddonInstanceSet::new();
    let p = sync_plan(&["office:a", "office:b"], &[], &[]);
    manager.plan_round(&mut instances, &p, &Vec::new());
    manager.record_launch(&mut instances, "office:a", true);
    manager.record_launch(&mut instances, "office:b", false);
    assert_eq!(manager.running_ids(), strings(&["office:a"]));
    assert_eq!(manager.suppressed_ids(), strings(&["office:b"]));
    assert_eq!(instances.sorted_ids(), strings(&["office:a"]));

    let again = manager.plan_round(&mut instances, &sync_plan(&["office:b"], &["office:a"], &[]), &Vec::new());
    assert!(again.launch.is_empty());
    assert!(again.kill.is_empty());
    assert_eq!(instances.sorted_ids(), strings(&["office:a"]));
}

#[test]
fn exited_processes_are_held_back_until_stopped() {
    let mut manager = AddonManager::new();
    let mut instances = SpaceAddonInstanceSet::new();
    manager.plan_round(&mut instances, &sync_plan(&["office:a"], &[], &[]), &Vec::new());
    manager.record_launch(&mut instances, "office:a", true);

    let r = manager.plan_round(&mut instances, &sync_plan(&[], &["office:a"], &[]), &strings(&["office:a"]));
    assert!(r.kill.is_empty());
    assert!(manager.running_ids().is_empty());
    assert_eq!(manager.suppressed_ids(), strings(&["office:a"]));
    assert!(instances.sorted_ids().is_empty());

    let r = manager.plan_round(&mut instances, &sync_plan(&["office:a"], &[], &[]), &Vec::new());
    assert!(r.launch.is_empty());

    manager.plan_round(&mut instances, &sync_plan(&[], &[], &["office:a"]), &Vec::new());
    assert!(manager.suppressed_ids().is_empty());
    let r = manager.plan_round(&mut instances, &sync_plan(&["office:a"], &[], &[]), &Vec::new());
    assert_eq!(r.launch, vec![0]);
}

#[test]
fn stopped_and_unwanted_processes_are_killed() {
    let mut manager = AddonManager::new();
    let mut instances = SpaceAddonInstanceSet::new();
    manager.plan_round(&mut instances, &sync_plan(&["office:a", "office:b", "office:c"], &[], &[]), &Vec::new());
    manager.record_launch(&mut instances, "office:a", true);
    manager.record_launch(&mut instances, "office:b", true);
    manager.record_launch(&mut instances, "office:c", true);

    let r = manager.plan_round(&mut instances, &sync_plan(&[], &["office:c"], &["office:a", "office:a"]), &Vec::new());
    let mut killed = r.kill.clone();
    killed.sort();
    assert_eq!(killed, strings(&["office:a", "office:b"]));
    assert_eq!(manager.running_ids(), strings(&["office:c"]));
    assert_eq!(instances.sorted_ids(), strings(&["office:c"]));
}

#[test]
fn a_held_back_instance_no_longer_wanted_is_forgotten() {
    let mut manager = AddonManager::new();
    let mut instances = SpaceAddonInstanceSet::new();
    manager.plan_round(&mut instances, &sync_plan(&["office:a"], &[], &[]), &Vec::new());
    manager.record_launch(&mut instances, "office:a", false);
    assert_eq!(manager.suppressed_ids(), strings(&["office:a"]));
    manager.plan_round(&mut instances, &sync_plan(&[], &[], &[]), &Vec::new());
    assert!(manager.suppressed_ids().is_empty());
    let r = manager.plan_round(&mut instances, &sync_plan(&["office:a"], &[], &[]), &Vec::new());
    assert_eq!(r.launch, vec![0]);
}

#[test]
fn only_launched_processes_are_killed() {
    let mut manager = AddonManager::new();
    let mut instances = SpaceAddonInstanceSet::new();
    manager.plan_round(&mut instances, &sync_plan(&["office:a"], &[], &[]), &Vec::new());
    manager.record_launch(&mut instances, "office:a", true);

    let r = manager.plan_round(&mut instances, &sync_plan(&[], &[], &["office:a", "office:x", "other:y"]), &Vec::new());
    assert_eq!(r.kill, strings(&["office:a"]));
    assert!(manager.running_ids().is_empty());
}
