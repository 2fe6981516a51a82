use eternal::cache::{cache_file_for, cache_path};
use std::path::PathBuf;

#[test]
fn cache_file_names_are_sixteen_hex_digits() {
    assert_eq!(
        cache_file_for(0xbeef),
        "target/eternal-debug-cache/000000000000beef.json"
    );
    assert_eq!(
        cache_file_for(u64::MAX),
        "target/eternal-debug-cache/ffffffffffffffff.json"
    );
    assert_eq!(
        cache_file_for(0x0123_4567_89ab_cdef),
        "target/eternal-debug-cache/0123456789abcdef.json"
    );
}

#[test]
fn cache_path_depends_on_the_input() {
    let song = PathBuf::from("/music/song.mp3");
    let other = PathBuf::from("/music/other.mp3");
    let first = cache_path(&song, 1_000, 1_700_000_000);
    assert_eq!(first, cache_path(&song, 1_000, 1_700_000_000));
    assert!(first.starts_with("target/eternal-debug-cache/"));
    assert!(first.ends_with(".json"));
    assert_eq!(first.len(), "target/eternal-debug-cache/".len() + 16 + ".json".len());
    assert_ne!(first, cache_path(&song, 1_001, 1_700_000_000));
    assert_ne!(first, cache_path(&other, 1_000, 1_700_000_000));
    assert_ne!(first, cache_path(&song, 1_000, 1_700_000_001));
}

