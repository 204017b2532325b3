//! Data model of the indexed collection: songs, directories, the derived
//! album/artist groupings, and the error type shared by the queries.

use vstd::prelude::*;

use crate::strutil::{split_on, views_of};

verus! {

/// Separator that delimits the values of a multi-valued tag field. It cannot
/// legitimately appear inside a single tag value.
pub const TAG_SEPARATOR: char = '\u{000C}';

/// An ordered sequence of values carried by one tag field (a song may name
/// two artists in a single field).
#[derive(Debug, PartialEq, Eq)]
pub struct MultiString(pub Vec<String>);

impl View for MultiString {
    type V = Seq<Seq<char>>;

    open spec fn view(&self) -> Seq<Seq<char>> {
        views_of(self.0@)
    }
}

/// Clone a vector of strings element by element, keeping the view.
pub fn clone_string_vec(v: &Vec<String>) -> (r: Vec<String>)
    ensures
        r@ =~= v@,
{
    let mut r: Vec<String> = Vec::new();
    let mut i: usize = 0;
    while i < v.len()
        invariant
            i <= v@.len(),
            r@ =~= v@.subrange(0, i as int),
        decreases v@.len() - i,
    {
        r.push(v[i].clone());
        i += 1;
    }
    r
}

/// Clone an optional string, keeping the view.
pub fn clone_opt_string(v: &Option<String>) -> (r: Option<String>)
    ensures
        r == v,
{
    match v {
        Some(s) => Some(s.clone()),
        None => None,
    }
}

impl Clone for MultiString {
    fn clone(&self) -> (r: Self)
        ensures
            r@ == self@,
            r.0@ == self.0@,
    {
        let r = MultiString(clone_string_vec(&self.0));
        proof {
            assert(r.0@ == self.0@);
        }
        r
    }
}

impl MultiString {
    /// The values carried by a tag field: an absent field carries no value at
    /// all, a present field is split on `TAG_SEPARATOR`.
    pub fn from_tag(value: Option<String>) -> (r: MultiString)
        ensures
            value is None ==> r@ =~~= Seq::<Seq<char>>::empty(),
            value is Some ==> r@ =~~= split_on(value.unwrap()@, TAG_SEPARATOR),
    {
        match value {
            None => MultiString(Vec::new()),
            Some(s) => MultiString(crate::strutil::split_string(s.as_str(), TAG_SEPARATOR)),
        }
    }
}

/// One entry discovered during a filesystem walk, keyed by its virtual path.
#[derive(Debug, PartialEq, Eq)]
pub enum File {
    Directory(String),
    Song(String),
}

/// Ghost image of a `File`.
pub ghost enum FileV {
    Directory(Seq<char>),
    Song(Seq<char>),
}

impl View for File {
    type V = FileV;

    open spec fn view(&self) -> FileV {
        match self {
            File::Directory(p) => FileV::Directory(p@),
            File::Song(p) => FileV::Song(p@),
        }
    }
}

impl Clone for File {
    fn clone(&self) -> (r: Self)
        ensures
            r@ == self@,
    {
        match self {
            File::Directory(p) => File::Directory(p.clone()),
            File::Song(p) => File::Song(p.clone()),
        }
    }
}

/// Ghost image of a `Song`: every field as a mathematical value.
pub ghost struct SongV {
    pub path: Seq<char>,
    pub virtual_path: Seq<char>,
    pub virtual_parent: Seq<char>,
    pub track_number: Option<i64>,
    pub disc_number: Option<i64>,
    pub title: Option<Seq<char>>,
    pub artists: Seq<Seq<char>>,
    pub album_artists: Seq<Seq<char>>,
    pub year: Option<i64>,
    pub album: Option<Seq<char>>,
    pub artwork: Option<Seq<char>>,
    pub duration: Option<i64>,
    pub lyricists: Seq<Seq<char>>,
    pub composers: Seq<Seq<char>>,
    pub genres: Seq<Seq<char>>,
    pub labels: Seq<Seq<char>>,
    pub date_added: i64,
}

/// The view of an optional owned string.
pub open spec fn opt_view(o: Option<String>) -> Option<Seq<char>> {
    match o {
        Some(s) => Some(s@),
        None => None,
    }
}

/// One indexed audio file with its tag data, in both real and virtual
/// coordinates.
#[derive(Debug, PartialEq, Eq)]
pub struct Song {
    pub path: String,
    pub virtual_path: String,
    pub virtual_parent: String,
    pub track_number: Option<i64>,
    pub disc_number: Option<i64>,
    pub title: Option<String>,
    pub artists: MultiString,
    pub album_artists: MultiString,
    pub year: Option<i64>,
    pub album: Option<String>,
    pub artwork: Option<String>,
    pub duration: Option<i64>,
    pub lyricists: MultiString,
    pub composers: MultiString,
    pub genres: MultiString,
    pub labels: MultiString,
    pub date_added: i64,
}

impl View for Song {
    type V = SongV;

    open spec fn view(&self) -> SongV {
        SongV {
            path: self.path@,
            virtual_path: self.virtual_path@,
            virtual_parent: self.virtual_parent@,
            track_number: self.track_number,
            disc_number: self.disc_number,
            title: opt_view(self.title),
            artists: self.artists@,
            album_artists: self.album_artists@,
            year: self.year,
            album: opt_view(self.album),
            artwork: opt_view(self.artwork),
            duration: self.duration,
            lyricists: self.lyricists@,
            composers: self.composers@,
            genres: self.genres@,
            labels: self.labels@,
            date_added: self.date_added,
        }
    }
}

impl Clone for Song {
    fn clone(&self) -> (r: Self)
        ensures
            r@ == self@,
    {
        Song {
            path: self.path.clone(),
            virtual_path: self.virtual_path.clone(),
            virtual_parent: self.virtual_parent.clone(),
            track_number: self.track_number,
            disc_number: self.disc_number,
            title: clone_opt_string(&self.title),
            artists: self.artists.clone(),
            album_artists: self.album_artists.clone(),
            year: self.year,
            album: clone_opt_string(&self.album),
            artwork: clone_opt_string(&self.artwork),
            duration: self.duration,
            lyricists: self.lyricists.clone(),
            composers: self.composers.clone(),
            genres: self.genres.clone(),
            labels: self.labels.clone(),
            date_added: self.date_added,
        }
    }
}

/// Ghost image of a `Directory`.
pub ghost struct DirectoryV {
    pub virtual_path: Seq<char>,
    pub virtual_parent: Option<Seq<char>>,
}

/// A folder node of the browsable tree; root directories (the mounts) have no
/// parent.
#[derive(Debug, PartialEq, Eq)]
pub struct Directory {
    pub virtual_path: String,
    pub virtual_parent: Option<String>,
}

impl View for Directory {
    type V = DirectoryV;

    open spec fn view(&self) -> DirectoryV {
        DirectoryV {
            virtual_path: self.virtual_path@,
            virtual_parent: opt_view(self.virtual_parent),
        }
    }
}

impl Clone for Directory {
    fn clone(&self) -> (r: Self)
        ensures
            r@ == self@,
    {
        Directory {
            virtual_path: self.virtual_path.clone(),
            virtual_parent: clone_opt_string(&self.virtual_parent),
        }
    }
}

/// One entry of a browse listing: a sub-directory or a song.
#[derive(Debug, PartialEq, Eq)]
pub enum CollectionFile {
    Directory(Directory),
    Song(Song),
}

/// Ghost image of a `CollectionFile`.
pub ghost enum CollectionFileV {
    Directory(DirectoryV),
    Song(SongV),
}

impl View for CollectionFile {
    type V = CollectionFileV;

    open spec fn view(&self) -> CollectionFileV {
        match self {
            CollectionFile::Directory(d) => CollectionFileV::Directory(d@),
            CollectionFile::Song(s) => CollectionFileV::Song(s@),
        }
    }
}

/// Ghost image of an `Album`.
pub ghost struct AlbumV {
    pub name: Option<Seq<char>>,
    pub artwork: Option<Seq<char>>,
    pub artists: Seq<Seq<char>>,
    pub year: Option<i64>,
    pub date_added: i64,
    pub songs: Seq<SongV>,
}

/// A derived, query-time grouping of songs that share an album name.
#[derive(Debug, PartialEq, Eq)]
pub struct Album {
    pub name: Option<String>,
    pub artwork: Option<String>,
    pub artists: Vec<String>,
    pub year: Option<i64>,
    pub date_added: i64,
    pub songs: Vec<Song>,
}

impl View for Album {
    type V = AlbumV;

    open spec fn view(&self) -> AlbumV {
        AlbumV {
            name: opt_view(self.name),
            artwork: opt_view(self.artwork),
            artists: views_of(self.artists@),
            year: self.year,
            date_added: self.date_added,
            songs: self.songs@.map_values(|s: Song| s@),
        }
    }
}

/// Clone a vector of songs element by element, keeping the views.
pub fn clone_songs(v: &Vec<Song>) -> (r: Vec<Song>)
    ensures
        r@.map_values(|s: Song| s@) =~= v@.map_values(|s: Song| s@),
{
    let mut r: Vec<Song> = Vec::new();
    let mut i: usize = 0;
    while i < v.len()
        invariant
            i <= v@.len(),
            r@.len() == i,
            forall|j: int| 0 <= j < i ==> (#[trigger] r@[j])@ == v@[j]@,
        decreases v@.len() - i,
    {
        let sc = v[i].clone();
        let ghost r0 = r@;
        r.push(sc);
        proof {
            assert(r@ == r0.push(sc));
            assert forall|j: int| 0 <= j < i + 1 implies (#[trigger] r@[j])@ == v@[j]@ by {
                if j < i {
                    assert(r@[j] == r0[j]);
                } else {
                    assert(r@[j] == sc);
                }
            }
        }
        i += 1;
    }
    proof {
        assert forall|j: int| 0 <= j < v@.len() implies (#[trigger] r@[j])@ == v@[j]@ by {
        }
        assert(r@.map_values(|s: Song| s@) =~= v@.map_values(|s: Song| s@));
    }
    r
}

impl Clone for Album {
    fn clone(&self) -> (r: Self)
        ensures
            r@ == self@,
    {
        Album {
            name: clone_opt_string(&self.name),
            artwork: clone_opt_string(&self.artwork),
            artists: clone_string_vec(&self.artists),
            year: self.year,
            date_added: self.date_added,
            songs: clone_songs(&self.songs),
        }
    }
}

/// Ghost image of an `Artist`.
pub ghost struct ArtistV {
    pub name: Option<Seq<char>>,
    pub albums: Seq<AlbumV>,
}

/// A derived, query-time grouping: the albums an artist appears on.
#[derive(Debug, PartialEq, Eq)]
pub struct Artist {
    pub name: Option<String>,
    pub albums: Vec<Album>,
}

impl View for Artist {
    type V = ArtistV;

    open spec fn view(&self) -> ArtistV {
        ArtistV {
            name: opt_view(self.name),
            albums: self.albums@.map_values(|a: Album| a@),
        }
    }
}

/// What the collection operations can fail with.
#[derive(Debug, PartialEq, Eq)]
pub enum Error {
    /// The virtual path names no known directory or mount.
    DirectoryNotFound(String),
    /// The virtual path is malformed or escapes its mount root.
    InvalidPath(String),
}

impl Clone for Error {
    fn clone(&self) -> (r: Self)
        ensures
            r@ == self@,
    {
        match self {
            Error::DirectoryNotFound(p) => Error::DirectoryNotFound(p.clone()),
            Error::InvalidPath(p) => Error::InvalidPath(p.clone()),
        }
    }
}

/// Ghost image of an `Error`.
pub ghost enum ErrorV {
    DirectoryNotFound(Seq<char>),
    InvalidPath(Seq<char>),
}

impl View for Error {
    type V = ErrorV;

    open spec fn view(&self) -> ErrorV {
        match self {
            Error::DirectoryNotFound(p) => ErrorV::DirectoryNotFound(p@),
            Error::InvalidPath(p) => ErrorV::InvalidPath(p@),
        }
    }
}

} // verus!
