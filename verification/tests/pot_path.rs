use pots::pot_path::PotPath;

#[test]
fn extendable() {
    let path = PotPath::CurrentFolder.extend("a").extend("b");
    assert_eq!(path.segment_names(), vec!["".to_string(), "a".into(), "b".into()]);
}

#[test]
fn current_folder_has_the_empty_name() {
    assert_eq!(PotPath::CurrentFolder.segment_names(), vec!["".to_string()]);
    assert!(PotPath::CurrentFolder.location().is_empty());
}

#[test]
fn location_leaves_out_empty_names() {
    let path = PotPath::CurrentFolder.extend("a").extend("").extend("b");
    assert_eq!(path.segment_names(), vec!["".to_string(), "a".into(), "".into(), "b".into()]);
    assert_eq!(path.location(), vec!["a".to_string(), "b".into()]);
}

#[test]
fn same_location_ignores_empty_names() {
    let plain = PotPath::CurrentFolder.extend("a");
    let padded = PotPath::CurrentFolder.extend("").extend("a").extend("");
    assert!(plain.same_location(&padded));
    assert!(PotPath::CurrentFolder.same_location(&PotPath::CurrentFolder.extend("")));
    assert!(!plain.same_location(&PotPath::CurrentFolder));
    assert!(!plain.same_location(&PotPath::CurrentFolder.extend("b")));
    assert!(!plain.same_location(&plain.extend("a")));
}

#[test]
fn clone_keeps_the_names() {
    let path = PotPath::CurrentFolder.extend("x").extend("y");
    assert_eq!(path.clone().segment_names(), path.segment_names());
}
