use locallink::spaces::{SpaceKind, SpaceRecord, SpaceStore};
use locallink::strmap::StrMap;

fn space_record(space_id: &str, name: &str, kind: SpaceKind, members: Vec<&str>) -> SpaceRecord {
    SpaceRecord {
        space_id: space_id.to_string(),
        name: name.to_string(),
        kind,
        active: false,
        members: members.into_iter().map(str::to_string).collect(),
        addons: StrMap::new(),
    }
}

#[test]
fn default_store_has_no_spaces() {
    let store = SpaceStore::default();
    assert!(store.spaces.is_empty());
}

#[test]
fn members_are_trimmed_sorted_and_deduped() {
    let mut store = SpaceStore {
        spaces: vec![SpaceRecord {
            space_id: "office".to_string(),
            name: "Office".to_string(),
            kind: SpaceKind::Group,
            active: false,
            members: vec![" b ".to_string(), "a".to_string(), "b".to_string()],
            addons: StrMap::new(),
        }],
    };

    store.validate_and_repair().unwrap();
    assert_eq!(store.spaces[0].members, vec!["a", "b"]);
}

#[test]
fn direct_spaces_allow_at_most_one_member() {
    let mut store = SpaceStore {
        spaces: vec![space_record("direct", "Direct", SpaceKind::Direct, vec!["a", "b"])],
    };

    assert!(store.validate_and_repair().is_err());
}

#[test]
fn repairing_a_repaired_store_changes_nothing() {
    let mut store = SpaceStore {
        spaces: vec![space_record(" office ", "  ", SpaceKind::Group, vec![" b ", "a", "b", ""])],
    };
    assert!(store.validate_and_repair().is_ok());
    assert_eq!(store.spaces[0].space_id, "office");
    assert_eq!(store.spaces[0].name, "office");
    assert_eq!(store.spaces[0].members, vec!["a".to_string(), "b".to_string()]);
    assert!(store.validate_and_repair().is_ok());
    assert_eq!(store.spaces[0].space_id, "office");
    assert_eq!(store.spaces[0].name, "office");
    assert_eq!(store.spaces[0].members, vec!["a".to_string(), "b".to_string()]);
}

#[test]
fn an_addon_state_reads_back_as_set() {
    let mut store = SpaceStore::default();
    store.spaces.push(SpaceRecord {
        space_id: "office".to_string(),
        name: "Office".to_string(),
        kind: SpaceKind::Group,
        active: true,
        members: Vec::new(),
        addons: StrMap::new(),
    });
    let set = store.set_addon_enabled(" office", " clipboard ", true).unwrap();
    assert!(set.enabled);
    assert!(store.addon_state("office", "clipboard").unwrap().unwrap().enabled);
    store.set_addon_enabled("office", "clipboard", false).unwrap();
    assert!(!store.addon_state(" office ", "clipboard ").unwrap().unwrap().enabled);
    assert!(store.addon_state("office", "echo").unwrap().is_none());
}

#[test]
fn switching_a_repaired_space_changes_only_its_flag() {
    let mut store = SpaceStore {
        spaces: vec![
            space_record(" office ", " Office ", SpaceKind::Group, vec![" b", "a", "b"]),
            space_record("home", "", SpaceKind::Direct, vec!["x"]),
        ],
    };
    store.validate_and_repair().unwrap();
    let before: Vec<(String, String, Vec<String>)> =
        store.spaces.iter().map(|s| (s.space_id.clone(), s.name.clone(), s.members.clone())).collect();
    store.set_space_active("office", true).unwrap();
    let after: Vec<(String, String, Vec<String>)> =
        store.spaces.iter().map(|s| (s.space_id.clone(), s.name.clone(), s.members.clone())).collect();
    assert_eq!(before, after);
    assert!(store.spaces[0].active);
    assert!(!store.spaces[1].active);
    assert_eq!(store.spaces[1].name, "home");
}
