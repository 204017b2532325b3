use music_index::store::Index;
use music_index::types::{CollectionFile, Error, MultiString, Song, TAG_SEPARATOR};
use music_index::vfs::MountDir;

fn song(virtual_path: &str, real_path: &str, title: &str, artist_tag: Option<String>, album: Option<&str>) -> Song {
    Song {
        path: real_path.to_owned(),
        virtual_path: virtual_path.to_owned(),
        virtual_parent: String::new(),
        track_number: Some(1),
        disc_number: None,
        title: Some(title.to_owned()),
        artists: MultiString::from_tag(artist_tag),
        album_artists: MultiString::from_tag(None),
        year: Some(2016),
        album: album.map(|a| a.to_owned()),
        artwork: None,
        duration: Some(180),
        lyricists: MultiString::from_tag(None),
        composers: MultiString::from_tag(None),
        genres: MultiString::from_tag(None),
        labels: MultiString::from_tag(None),
        date_added: 0,
    }
}

fn sample_index() -> Index {
    let mut index = Index::new();
    index
        .vfs
        .set_mount_dirs(vec![MountDir { name: "music".to_owned(), source: "/data/music".to_owned() }])
        .unwrap();
    let candidates = vec![
        song(
            "music/Artist/Album/01.mp3",
            "/data/music/Artist/Album/01.mp3",
            "Opening",
            Some(format!("A{}B", TAG_SEPARATOR)),
            Some("X"),
        ),
        song(
            "music/Artist/Album/02.mp3",
            "/data/music/Artist/Album/02.mp3",
            "Closing",
            Some("A".to_owned()),
            Some("X"),
        ),
        song(
            "music/Other/song.mp3",
            "/data/music/Other/song.mp3",
            "Stray",
            Some("C".to_owned()),
            Some("Y"),
        ),
    ];
    index.commit_mount("music", candidates, 41).unwrap();
    index
}

#[test]
fn browse_root_lists_mounts() {
    let index = sample_index();
    let root = index.browse("").unwrap();
    assert_eq!(root.len(), 1);
    match &root[0] {
        CollectionFile::Directory(d) => {
            assert_eq!(d.virtual_path, "music");
            assert_eq!(d.virtual_parent, None);
        },
        CollectionFile::Song(_) => panic!("mounts are directories"),
    }
}

#[test]
fn browse_lists_direct_children_only() {
    let index = sample_index();
    let entries = index.browse("music").unwrap();
    let names: Vec<&str> = entries
        .iter()
        .map(|e| match e {
            CollectionFile::Directory(d) => d.virtual_path.as_str(),
            CollectionFile::Song(s) => s.virtual_path.as_str(),
        })
        .collect();
    assert_eq!(names, vec!["music/Artist", "music/Other"]);

    let leaf = index.browse("music/Artist/Album").unwrap();
    assert_eq!(leaf.len(), 2);
    match &leaf[0] {
        CollectionFile::Song(s) => {
            assert_eq!(s.virtual_path, "music/Artist/Album/01.mp3");
            assert_eq!(s.virtual_parent, "music/Artist/Album");
            assert_eq!(s.artists.0, vec!["A".to_owned(), "B".to_owned()]);
            assert_eq!(s.date_added, 41);
        },
        CollectionFile::Directory(_) => panic!("expected a song"),
    }
}

#[test]
fn browse_unknown_path_is_not_found() {
    let index = sample_index();
    assert!(matches!(index.browse("music/Nowhere"), Err(Error::DirectoryNotFound(_))));
}

#[test]
fn browse_song_path_has_no_children() {
    let index = sample_index();
    assert_eq!(index.browse("music/Other/song.mp3").unwrap().len(), 0);
}

#[test]
fn flatten_is_recursive_and_ordered() {
    let index = sample_index();
    let all = index.flatten("").unwrap();
    assert_eq!(all.len(), 3);
    let under = index.flatten("music/Artist").unwrap();
    let paths: Vec<&str> = under.iter().map(|s| s.virtual_path.as_str()).collect();
    assert_eq!(paths, vec!["music/Artist/Album/01.mp3", "music/Artist/Album/02.mp3"]);
    assert!(matches!(index.flatten("music/Missing"), Err(Error::DirectoryNotFound(_))));
}

#[test]
fn flatten_agrees_with_browse() {
    // The songs under a directory are its direct song children plus the
    // songs under its directory children.
    let index = sample_index();
    for dir in ["music", "music/Artist", "music/Artist/Album", "music/Other"] {
        let mut gathered: Vec<String> = Vec::new();
        for entry in index.browse(dir).unwrap() {
            match entry {
                CollectionFile::Song(s) => gathered.push(s.virtual_path),
                CollectionFile::Directory(d) => {
                    for s in index.flatten(&d.virtual_path).unwrap() {
                        gathered.push(s.virtual_path);
                    }
                },
            }
        }
        gathered.sort();
        let mut direct: Vec<String> =
            index.flatten(dir).unwrap().into_iter().map(|s| s.virtual_path).collect();
        direct.sort();
        assert_eq!(gathered, direct);
    }
}

#[test]
fn reindex_is_idempotent() {
    let mut index = sample_index();
    let before: Vec<Song> = index.flatten("").unwrap();
    let candidates = vec![
        song(
            "music/Artist/Album/01.mp3",
            "/data/music/Artist/Album/01.mp3",
            "Opening",
            Some(format!("A{}B", TAG_SEPARATOR)),
            Some("X"),
        ),
        song(
            "music/Artist/Album/02.mp3",
            "/data/music/Artist/Album/02.mp3",
            "Closing",
            Some("A".to_owned()),
            Some("X"),
        ),
        song(
            "music/Other/song.mp3",
            "/data/music/Other/song.mp3",
            "Stray",
            Some("C".to_owned()),
            Some("Y"),
        ),
    ];
    index.commit_mount("music", candidates, 41).unwrap();
    let after: Vec<Song> = index.flatten("").unwrap();
    assert_eq!(before, after);
}

#[test]
fn commit_skips_bad_entries() {
    let mut index = Index::new();
    let candidates = vec![
        song("music/ok.mp3", "/data/music/ok.mp3", "Ok", None, None),
        song("elsewhere/no.mp3", "/x/no.mp3", "Wrong mount", None, None),
        song("music/../no.mp3", "/x/no.mp3", "Traversal", None, None),
        song("music/ok.mp3", "/data/music/ok2.mp3", "Duplicate", None, None),
    ];
    index.commit_mount("music", candidates, 1).unwrap();
    let all = index.flatten("").unwrap();
    assert_eq!(all.len(), 1);
    assert_eq!(all[0].virtual_path, "music/ok.mp3");
    assert_eq!(all[0].title, Some("Ok".to_owned()));
}

#[test]
fn commit_rejects_bad_mount_name() {
    let mut index = Index::new();
    assert!(matches!(index.commit_mount("a/b", vec![], 0), Err(Error::InvalidPath(_))));
}

#[test]
fn commit_touches_only_its_mount() {
    let mut index = sample_index();
    index
        .commit_mount("demos", vec![song("demos/d.mp3", "/demos/d.mp3", "Demo", None, None)], 50)
        .unwrap();
    assert_eq!(index.flatten("music").unwrap().len(), 3);
    assert_eq!(index.flatten("demos").unwrap().len(), 1);
    index.commit_mount("demos", vec![], 51).unwrap();
    assert_eq!(index.flatten("music").unwrap().len(), 3);
    assert!(index.flatten("demos").is_err());
}

#[test]
fn removing_a_mount_empties_its_tree() {
    let mut index = sample_index();
    index.vfs.set_mount_dirs(vec![]).unwrap();
    index.commit_mount("music", vec![], 60).unwrap();
    assert_eq!(index.browse("").unwrap().len(), 0);
    assert!(index.flatten("music").is_err());
}

#[test]
fn index_trigger_coalesces() {
    let mut index = Index::new();
    // Idle: a trigger starts a pass; triggers during it owe one follow-up.
    assert!(index.trigger_reindex());
    assert!(!index.trigger_reindex());
    assert!(!index.trigger_reindex());
    assert!(index.status.finish_pass());
    assert!(!index.status.finish_pass());
}

#[test]
fn search_is_case_insensitive() {
    let index = sample_index();
    let hits = index.search("OPEN");
    assert_eq!(hits.len(), 1);
    match &hits[0] {
        CollectionFile::Song(s) => assert_eq!(s.title, Some("Opening".to_owned())),
        CollectionFile::Directory(_) => panic!("expected a song"),
    }
}

#[test]
fn search_matches_artists_and_paths() {
    let index = sample_index();
    let by_artist = index.search("c");
    assert!(by_artist.iter().any(|e| matches!(e, CollectionFile::Song(s) if s.title == Some("Stray".to_owned()))));
    let by_path = index.search("album");
    assert!(by_path.iter().any(|e| matches!(e, CollectionFile::Directory(d) if d.virtual_path == "music/Artist/Album")));
}

#[test]
fn search_empty_query_returns_everything() {
    let index = sample_index();
    let hits = index.search("");
    // Every stored directory (4) and every song (3) matches the empty query.
    assert_eq!(hits.len(), 7);
}

#[test]
fn albums_group_by_name() {
    let index = sample_index();
    let albums = index.albums();
    assert_eq!(albums.len(), 2);
    assert_eq!(albums[0].name, Some("X".to_owned()));
    assert_eq!(albums[0].songs.len(), 2);
    assert_eq!(albums[0].artists, vec!["A".to_owned(), "B".to_owned()]);
    assert_eq!(albums[0].date_added, 41);
    assert_eq!(albums[0].year, Some(2016));
    assert_eq!(albums[1].name, Some("Y".to_owned()));
}

#[test]
fn artists_list_their_albums() {
    let index = sample_index();
    let artists = index.artists();
    let names: Vec<Option<String>> = artists.iter().map(|a| a.name.clone()).collect();
    assert_eq!(
        names,
        vec![Some("A".to_owned()), Some("B".to_owned()), Some("C".to_owned())]
    );
    assert_eq!(artists[0].albums.len(), 1);
    assert_eq!(artists[0].albums[0].name, Some("X".to_owned()));
    assert_eq!(artists[2].albums[0].name, Some("Y".to_owned()));
}

#[test]
fn random_albums_cover_the_collection() {
    let index = sample_index();
    let picked = index.get_random_albums(7, 20);
    assert_eq!(picked.len(), 2);
    assert!(picked.iter().any(|a| a.name == Some("X".to_owned())
        && a.artists.contains(&"A".to_owned())
        && a.artists.contains(&"B".to_owned())));
}

#[test]
fn recent_albums_are_newest_first() {
    let mut index = sample_index();
    index
        .commit_mount("fresh", vec![song("fresh/n.mp3", "/fresh/n.mp3", "New", None, Some("Z"))], 99)
        .unwrap();
    let recent = index.get_recent_albums(20);
    assert_eq!(recent.len(), 3);
    assert_eq!(recent[0].name, Some("Z".to_owned()));
    assert!(recent[0].date_added >= recent[1].date_added);
    assert!(recent[1].date_added >= recent[2].date_added);
    let top = index.get_recent_albums(1);
    assert_eq!(top.len(), 1);
}
