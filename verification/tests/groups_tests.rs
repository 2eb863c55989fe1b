use openwith::groups::{get_suffix_group, list_available_groups, GroupTable};

const GROUPS_YAML: &str = "groups:\n  video:\n  - mp4\n  - mov\n  - avi\n  audio:\n  - mp3\n  - wav\n";

#[test]
fn test_get_suffix_group() {
    let table = GroupTable::from_yaml(GROUPS_YAML).unwrap();

    // Test valid group
    let video_group = get_suffix_group(&table, "video");
    assert!(video_group.is_some());
    assert!(video_group.unwrap().contains(&"mp4".to_string()));

    // Test invalid group
    let invalid_group = get_suffix_group(&table, "invalid");
    assert!(invalid_group.is_none());
}

#[test]
fn test_group_table_lists_every_group() {
    let table = GroupTable::from_yaml(GROUPS_YAML).unwrap();
    assert_eq!(table.len(), 2);
    let mut names = list_available_groups(&table);
    names.sort();
    assert_eq!(names, vec!["audio".to_string(), "video".to_string()]);
}

#[test]
fn test_group_table_exact_suffixes() {
    let table = GroupTable::from_yaml(GROUPS_YAML).unwrap();
    let video = get_suffix_group(&table, "video").unwrap();
    assert_eq!(
        video,
        vec!["mp4".to_string(), "mov".to_string(), "avi".to_string()]
    );
}

#[test]
fn test_group_table_rejects_bad_text() {
    assert!(GroupTable::from_yaml(": not yaml : [").is_none());
    assert!(GroupTable::from_yaml("other:\n  video:\n  - mp4\n").is_none());
}
