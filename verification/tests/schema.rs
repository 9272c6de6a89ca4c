//! Tests for the schema projection and the small build-tool helpers.

use black_dwarf::config::{compilers_file, config_dir};
use black_dwarf::error::Error;
use black_dwarf::parse;
use black_dwarf::project::{Project, TargetType, UnusedKeys};

#[test]
fn unknown_file_group_is_rejected() {
    let root = parse("[file-groups]\nb = { groups = [\"nope\"], files = [] }\n").unwrap();
    let err = Project::from_value(&root).unwrap_err();
    match err {
        Error::UnknownFileGroup { name, .. } => assert_eq!(name, "nope"),
        other => panic!("expected unknown file group, got {:?}", other),
    }
}

#[test]
fn groups_may_reference_earlier_groups() {
    let doc = "[file-groups]\n\
               base = [\"a.c\", \"b.c\"]\n\
               extra = { groups = [\"base\"], files = [\"c.c\"] }\n\
               [targets]\n\
               main = { groups = [\"base\", \"extra\"], files = [\"main.c\"] }\n";
    let root = parse(doc).unwrap();
    let project = Project::from_value(&root).unwrap();
    assert_eq!(project.file_groups.len(), 2);
    assert_eq!(project.file_groups[0].0, "base");
    assert_eq!(project.file_groups[0].1.files, vec!["a.c", "b.c"]);
    assert_eq!(project.file_groups[1].1.groups, vec!["base"]);
    assert_eq!(project.targets.len(), 1);
    assert_eq!(project.targets[0].0, "main");
    assert_eq!(project.targets[0].1.groups, vec!["base", "extra"]);
    assert_eq!(project.targets[0].1.files, vec!["main.c"]);
}

#[test]
fn forward_references_are_rejected() {
    let doc = "[file-groups]\n\
               extra = { groups = [\"base\"] }\n\
               base = [\"a.c\"]\n";
    let root = parse(doc).unwrap();
    assert!(matches!(
        Project::from_value(&root),
        Err(Error::UnknownFileGroup { .. })
    ));
}

#[test]
fn unused_keys_are_tolerated() {
    let doc = "[file-groups]\nb = { files = [], extra = 1 }\n[other]\nx = 1\n";
    let root = parse(doc).unwrap();
    let project = Project::from_value(&root).unwrap();
    let unused = project.unused_keys();
    assert!(unused.contains(&"extra".to_string()));
    assert!(unused.contains(&"other".to_string()));
}

#[test]
fn non_table_groups_section_is_rejected() {
    let root = parse("file-groups = 3\n").unwrap();
    match Project::from_value(&root).unwrap_err() {
        Error::IncorrectType { got, expected, .. } => {
            assert_eq!(got, "integer");
            assert_eq!(expected, "table");
        }
        other => panic!("expected incorrect type, got {:?}", other),
    }
}

#[test]
fn non_string_file_is_rejected() {
    let root = parse("[file-groups]\nb = [1]\n").unwrap();
    match Project::from_value(&root).unwrap_err() {
        Error::IncorrectType { got, expected, .. } => {
            assert_eq!(got, "integer");
            assert_eq!(expected, "string");
        }
        other => panic!("expected incorrect type, got {:?}", other),
    }
}

#[test]
fn bare_lists_are_files() {
    let root = parse("[targets]\nmain = [\"main.c\"]\n").unwrap();
    let project = Project::from_value(&root).unwrap();
    assert_eq!(project.targets[0].1.files, vec!["main.c"]);
    assert!(project.targets[0].1.groups.is_empty());
}

#[test]
fn target_type_names() {
    assert_eq!(TargetType::from_str("archive"), Ok(TargetType::Archive));
    assert_eq!(TargetType::from_str("dynamic"), Ok(TargetType::Dynamic));
    assert_eq!(TargetType::from_str("binary"), Ok(TargetType::Binary));
    assert!(TargetType::from_str("plugin").is_err());
    assert!(TargetType::from_str("").is_err());
}

#[test]
fn unused_keys_of_plain_values() {
    assert!("hello".to_string().unused_keys().is_empty());
    assert!(TargetType::Binary.unused_keys().is_empty());
    let v: Vec<String> = vec!["a".into(), "b".into()];
    assert!(v.unused_keys().is_empty());
}

#[test]
fn config_paths_have_the_expected_tails() {
    if let Some(dir) = config_dir() {
        assert!(dir.ends_with("/cretaceous"));
    }
    if let Some(path) = compilers_file() {
        assert!(path.ends_with("/cretaceous/compilers.toml"));
    }
}
