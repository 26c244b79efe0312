use layoutflash::area::Area;
use layoutflash::path::{expand_path, file_path, names_unset_variable, EnvVar};

fn var(name: &str, value: &str) -> EnvVar {
    EnvVar { name: name.to_string(), value: value.to_string() }
}

fn with_file(file: Option<&str>) -> Area {
    Area {
        description: String::new(),
        compatible: String::new(),
        offset: None,
        size: 16,
        file: file.map(|f| f.to_string()),
    }
}

#[test]
fn variable_is_put_in() {
    let env = vec![var("TARGET_DIR", "/build/out")];
    assert_eq!(expand_path("$(TARGET_DIR)/bootblob.bin", &env), "/build/out/bootblob.bin");
}

#[test]
fn every_occurrence_is_replaced() {
    let env = vec![var("A", "x"), var("B", "yy")];
    assert_eq!(expand_path("$(A)/$(B)/$(A)", &env), "x/yy/x");
}

#[test]
fn path_without_variables_is_kept() {
    let env = vec![var("A", "x")];
    assert_eq!(expand_path("plain/file.bin", &env), "plain/file.bin");
    assert_eq!(expand_path("$(OTHER)/file.bin", &env), "$(OTHER)/file.bin");
    assert_eq!(expand_path("$A/file.bin", &env), "$A/file.bin");
}

#[test]
fn empty_environment_changes_nothing() {
    assert_eq!(expand_path("$(A)", &Vec::new()), "$(A)");
}

#[test]
fn variables_are_put_in_one_after_the_other() {
    let env = vec![var("A", "$(B)"), var("B", "z")];
    assert_eq!(expand_path("$(A)", &env), "z");
}

#[test]
fn placeholder_has_both_ends() {
    assert!(names_unset_variable("$(UNSET_VAR)"));
    assert!(names_unset_variable("$()"));
    assert!(names_unset_variable("$(A)/x/$(B)"));
    assert!(!names_unset_variable("$("));
    assert!(!names_unset_variable("$(A"));
    assert!(!names_unset_variable("(A)"));
    assert!(!names_unset_variable("$(A)/file"));
    assert!(!names_unset_variable(""));
    assert!(!names_unset_variable(")"));
}

#[test]
fn unset_variable_gives_no_file() {
    let env = vec![var("HOME", "/root"), var("UNSET", "x")];
    assert_eq!(file_path(&with_file(Some("$(UNSET_VAR)")), &env), None);
}

#[test]
fn set_variable_gives_the_file() {
    let env = vec![var("PAYLOAD", "/tmp/payload.bin")];
    assert_eq!(
        file_path(&with_file(Some("$(PAYLOAD)")), &env),
        Some("/tmp/payload.bin".to_string())
    );
}

#[test]
fn area_without_file_gives_no_path() {
    let env = vec![var("HOME", "/root")];
    assert_eq!(file_path(&with_file(None), &env), None);
}

#[test]
fn plain_file_is_given_as_it_is() {
    assert_eq!(file_path(&with_file(Some("f")), &Vec::new()), Some("f".to_string()));
}

#[test]
fn variable_before_a_file_name_resolves() {
    let env = vec![var("D", "/img")];
    assert_eq!(file_path(&with_file(Some("$(D)/x.bin")), &env), Some("/img/x.bin".to_string()));
}

#[test]
fn matches_are_taken_from_the_left() {
    let env = vec![var("", "v")];
    assert_eq!(expand_path("$($()", &env), "$(v");
    assert_eq!(expand_path("$()$()", &env), "vv");
}
