use wikitui::paths::{
    state_dir_of, state_dir_or_fallback, wikitui_cache_dir, wikitui_config_dir, wikitui_data_dir,
    wikitui_state_dir, Dirs,
};

#[test]
fn state_dir_or_fallback_prefers_the_native_state_dir_when_present() {
    let native = "/home/reader/.local/state/wikitui".as_bytes();
    let data = "/home/reader/.local/share/wikitui".as_bytes();
    assert_eq!(state_dir_or_fallback(Some(native), data, b'/'), native);
}

#[test]
fn state_dir_or_fallback_falls_back_to_a_state_subdir_of_data_dir() {
    let data = "/Users/reader/Library/Application Support/wikitui".as_bytes();
    assert_eq!(
        state_dir_or_fallback(None, data, b'/'),
        "/Users/reader/Library/Application Support/wikitui/state".as_bytes(),
        "must never fall back to the bare data dir"
    );
}

#[test]
fn wikitui_state_dir_ends_in_wikitui_when_a_platform_dir_resolves() {
    if let Some(dir) = wikitui_state_dir() {
        assert!(dir.ends_with(b"wikitui") || dir.ends_with(b"state"));
    }
}

#[test]
fn wikitui_data_dir_and_cache_dir_and_config_dir_all_resolve_together() {
    let data = wikitui_data_dir();
    let cache = wikitui_cache_dir();
    let config = wikitui_config_dir();
    assert_eq!(data.is_some(), cache.is_some());
    assert_eq!(data.is_some(), config.is_some());
}

#[test]
fn every_directory_is_the_programs_own() {
    let named = |dir: Vec<u8>, kind: &[u8]| {
        let last = dir.rsplit(|c| *c == b'/' || *c == b'\\').next().map(|p| p.to_vec());
        last == Some(b"wikitui".to_vec()) || last == Some(kind.to_vec())
    };
    assert!(wikitui_state_dir().map_or(true, |d| named(d, b"state")));
    assert!(wikitui_data_dir().map_or(true, |d| named(d, b"data")));
    assert!(wikitui_cache_dir().map_or(true, |d| named(d, b"cache")));
    assert!(wikitui_config_dir().map_or(true, |d| named(d, b"config")));
}

#[test]
fn windows_reads_both_separators_and_bare_drives() {
    let join = |dir: &[u8]| state_dir_or_fallback(None, dir, b'\\');
    assert_eq!(join(b"C:\\data"), b"C:\\data\\state");
    assert_eq!(join(b"C:\\data\\"), b"C:\\data\\state");
    assert_eq!(join(b"C:/data/"), b"C:/data/state");
    assert_eq!(join(b"C:"), b"C:state");
    assert_eq!(join(b"1:"), b"1:\\state");
    assert_eq!(state_dir_or_fallback(None, b"C:", b'/'), b"C:/state");
    assert_eq!(state_dir_or_fallback(None, b"/data\\", b'/'), b"/data\\/state");
}

#[test]
fn a_trailing_separator_is_not_doubled() {
    assert_eq!(state_dir_or_fallback(None, b"/data/", b'/'), b"/data/state");
    assert_eq!(state_dir_or_fallback(None, b"", b'/'), b"state");
    assert_eq!(state_dir_of(&None), None);
    let dirs = Dirs {
        state: None,
        data: b"C:\\data".to_vec(),
        cache: Vec::new(),
        config: Vec::new(),
        separator: b'\\',
    };
    assert_eq!(state_dir_of(&Some(dirs)), Some(b"C:\\data\\state".to_vec()));
}

#[test]
fn a_path_need_not_be_text() {
    let data = [b'/', 0xff, 0xfe];
    assert_eq!(state_dir_or_fallback(None, &data, b'/'), b"/\xff\xfe/state");
}
