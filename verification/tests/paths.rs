use music_index::strutil::{eq_str, split_string, str_contains, u64_to_decimal};
use music_index::types::{Error, MultiString, TAG_SEPARATOR};
use music_index::vfs::{MountDir, Vfs};

fn mount(name: &str, source: &str) -> MountDir {
    MountDir { name: name.to_owned(), source: source.to_owned() }
}

#[test]
fn split_string_basics() {
    assert_eq!(split_string("a/b/c", '/'), vec!["a", "b", "c"]);
    assert_eq!(split_string("", '/'), vec![""]);
    assert_eq!(split_string("a//b", '/'), vec!["a", "", "b"]);
    assert_eq!(split_string("/a", '/'), vec!["", "a"]);
}

#[test]
fn decimal_formatting() {
    assert_eq!(u64_to_decimal(0), "0");
    assert_eq!(u64_to_decimal(7), "7");
    assert_eq!(u64_to_decimal(12034), "12034");
    assert_eq!(u64_to_decimal(u64::MAX), "18446744073709551615");
}

#[test]
fn substring_search() {
    assert!(str_contains("candlelight", "dle"));
    assert!(str_contains("candlelight", ""));
    assert!(!str_contains("candle", "dleli"));
    assert!(!str_contains("ab", "abc"));
    assert!(eq_str("same", "same"));
    assert!(!eq_str("same", "sane"));
}

#[test]
fn multi_value_parsing_splits_on_separator() {
    let raw = format!("A{}B", TAG_SEPARATOR);
    let ms = MultiString::from_tag(Some(raw));
    assert_eq!(ms.0, vec!["A".to_owned(), "B".to_owned()]);
}

#[test]
fn multi_value_parsing_absent_field_is_empty() {
    let ms = MultiString::from_tag(None);
    assert_eq!(ms.0, Vec::<String>::new());
}

#[test]
fn multi_value_parsing_plain_field_is_one_value() {
    let ms = MultiString::from_tag(Some("Khemmis".to_owned()));
    assert_eq!(ms.0, vec!["Khemmis".to_owned()]);
}

#[test]
fn mount_table_round_trip() {
    let mut vfs = Vfs::new();
    assert!(vfs.set_mount_dirs(vec![mount("music", "/data/music")]).is_ok());
    let dirs = vfs.mount_dirs();
    assert_eq!(dirs.len(), 1);
    assert_eq!(dirs[0].name, "music");
    assert_eq!(dirs[0].source, "/data/music");
}

#[test]
fn mount_table_rejects_duplicate_names() {
    let mut vfs = Vfs::new();
    let r = vfs.set_mount_dirs(vec![mount("music", "/a"), mount("music", "/b")]);
    assert!(matches!(r, Err(Error::InvalidPath(_))));
    assert_eq!(vfs.mount_dirs().len(), 0);
}

#[test]
fn mount_table_rejects_bad_names() {
    let mut vfs = Vfs::new();
    assert!(vfs.set_mount_dirs(vec![mount("", "/a")]).is_err());
    assert!(vfs.set_mount_dirs(vec![mount("a/b", "/a")]).is_err());
    assert!(vfs.set_mount_dirs(vec![mount("..", "/a")]).is_err());
}

#[test]
fn resolve_maps_through_the_mount() {
    let mut vfs = Vfs::new();
    vfs.set_mount_dirs(vec![mount("music", "/data/music")]).unwrap();
    assert_eq!(vfs.resolve("music").unwrap(), "/data/music");
    assert_eq!(
        vfs.resolve("music/Khemmis/Hunted").unwrap(),
        "/data/music/Khemmis/Hunted"
    );
}

#[test]
fn resolve_rejects_traversal() {
    let mut vfs = Vfs::new();
    vfs.set_mount_dirs(vec![mount("music", "/data/music")]).unwrap();
    let r = vfs.resolve("music/../etc/passwd");
    assert!(matches!(r, Err(Error::InvalidPath(_))));
}

#[test]
fn resolve_unknown_mount_is_not_found() {
    let mut vfs = Vfs::new();
    vfs.set_mount_dirs(vec![mount("music", "/data/music")]).unwrap();
    assert!(matches!(
        vfs.resolve("films/x"),
        Err(Error::DirectoryNotFound(_))
    ));
    assert!(matches!(vfs.resolve(""), Err(Error::DirectoryNotFound(_))));
}

#[test]
fn unresolve_maps_back() {
    let mut vfs = Vfs::new();
    vfs.set_mount_dirs(vec![mount("music", "/data/music")]).unwrap();
    assert_eq!(
        vfs.unresolve("/data/music/Khemmis/Hunted/02 - Candlelight.mp3").unwrap(),
        "music/Khemmis/Hunted/02 - Candlelight.mp3"
    );
    assert_eq!(vfs.unresolve("/data/music").unwrap(), "music");
    assert!(vfs.unresolve("/somewhere/else").is_err());
}

#[test]
fn path_round_trip() {
    let mut vfs = Vfs::new();
    vfs.set_mount_dirs(vec![mount("music", "/data/music"), mount("demos", "/data/demos")])
        .unwrap();
    for f in [
        "/data/music/Artist/Album/01.mp3",
        "/data/demos/track.flac",
        "/data/music",
    ] {
        let v = vfs.unresolve(f).unwrap();
        assert_eq!(vfs.resolve(&v).unwrap(), f);
    }
}
