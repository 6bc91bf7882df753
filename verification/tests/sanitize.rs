use photorg::sanitize::{
    component, extended_path, file_name, Platform, MAX_COMPONENT_LEN, PLACEHOLDER,
    WINDOWS_PATH_LIMIT,
};

#[test]
fn replaces_illegal_characters() {
    assert_eq!(component("a/b\\c:d*e?f"), "a-b-c-d-e-f");
    assert_eq!(component("tab\there"), "tab-here");
}

#[test]
fn strips_trailing_dots_and_spaces() {
    assert_eq!(component("folder..."), "folder");
    assert_eq!(component("folder   "), "folder");
    assert_eq!(component("  .hidden"), "hidden");
}

#[test]
fn prefixes_reserved_names() {
    assert_eq!(component("CON"), "_CON");
    assert_eq!(component("com1"), "_com1");
    assert_eq!(component("NUL.txt"), "_NUL.txt");
    assert_eq!(component("CONSOLE"), "CONSOLE");
}

#[test]
fn empty_becomes_placeholder() {
    assert_eq!(component(""), PLACEHOLDER);
    assert_eq!(component("..."), PLACEHOLDER);
    assert_eq!(component("   "), PLACEHOLDER);
}

#[test]
fn normalizes_to_nfc() {
    // "Zürich" spelled NFD (u + combining diaeresis).
    let nfd = "Zu\u{0308}rich";
    assert_eq!(component(nfd), "Zürich");
    assert_eq!(component(nfd), component("Zürich"));
}

#[test]
fn caps_component_length() {
    let long = "x".repeat(500);
    assert_eq!(component(&long).len(), MAX_COMPONENT_LEN);
}

#[test]
fn truncation_respects_char_boundaries() {
    let long = "é".repeat(200);
    let out = component(&long);
    assert!(out.len() <= MAX_COMPONENT_LEN);
    assert!(out.chars().all(|c| c == 'é'));
}

#[test]
fn file_name_keeps_extension() {
    let name = format!("{}.jpg", "a".repeat(300));
    let out = file_name(&name);
    assert!(out.ends_with(".jpg"));
    assert!(out.len() <= MAX_COMPONENT_LEN);
}

#[test]
fn control_characters_of_both_blocks_are_replaced() {
    assert_eq!(component("a\u{7f}b\u{85}c\u{1f}d"), "a-b-c-d");
}

#[test]
fn a_reserved_name_stays_within_the_cap_once_escaped() {
    let out = component(&format!("con.{}", "x".repeat(200)));
    assert_eq!(out.len(), MAX_COMPONENT_LEN);
    assert!(out.starts_with("_con.x"));
}

#[test]
fn clean_names_are_kept() {
    for name in ["IMG_0001", "08-August", "Zürich", "_CON"] {
        assert_eq!(component(name), name);
    }
}

#[test]
fn file_names_are_cleaned_like_components() {
    assert_eq!(file_name("wh:at?*.jpg"), "wh-at--.jpg");
    assert_eq!(file_name("con.jpg"), "_con.jpg");
    assert_eq!(file_name("Ce\u{301}sar.jpg"), "C\u{e9}sar.jpg");
}

#[test]
fn long_windows_paths_get_the_verbatim_prefix() {
    let short = "C:\\photos\\a.jpg";
    assert_eq!(extended_path(short, true, Platform::Windows), short);
    let long = format!("C:\\{}", "x".repeat(WINDOWS_PATH_LIMIT));
    assert_eq!(
        extended_path(&long, true, Platform::Windows),
        format!("\\\\?\\{long}")
    );
    assert_eq!(extended_path(&long, true, Platform::Unix), long);
    assert_eq!(extended_path(&long, false, Platform::Windows), long);
}
