use photorg::error::{FatalError, FileError};
use photorg::paths::{join, sorts_before};
use photorg::tables::TextMap;
use photorg::text::{decimal_chars, hex_chars, parse_u32, text_of};

#[test]
fn numbers_read_back() {
    for n in [0u32, 7, 10, 4096, u32::MAX] {
        let digits = decimal_chars(n as u64);
        assert_eq!(text_of(&digits), n.to_string());
        assert_eq!(parse_u32(&digits), Some(n));
    }
    assert_eq!(parse_u32(&['4', '2', '9', '4', '9', '6', '7', '2', '9', '6']), None);
    assert_eq!(parse_u32(&[]), None);
    assert_eq!(parse_u32(&['1', 'x']), None);
    assert_eq!(text_of(&hex_chars(0xbeef)), "beef");
}

#[test]
fn paths_sort_by_component() {
    assert!(sorts_before("a/z", "a-b"));
    assert!(!sorts_before("a-b", "a/z"));
    assert!(sorts_before("a", "a/b"));
    assert!(!sorts_before("a", "a"));
    assert_eq!(join("a", "b"), "a/b");
    assert_eq!(join("", "b"), "b");
}

#[test]
fn tables_remember_the_last_value() {
    let mut t: TextMap<u8> = TextMap::new();
    assert!(t.insert("k".into(), 1));
    assert!(!t.insert("k".into(), 2));
    assert_eq!(t.get("k"), Some(&2));
    assert_eq!(t.get("x"), None);
}

#[test]
fn fatal_errors_are_told() {
    let e = FatalError::DiskFull {
        needed: 10,
        available: 3,
    };
    assert!(e.message().contains("10") && e.message().contains('3'));
    assert_eq!(
        FileError::Unreadable("x".into()).message(),
        "unreadable: x"
    );
}
