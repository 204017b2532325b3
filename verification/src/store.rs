//! The indexed collection and its read queries: browse (one level), flatten
//! (recursive), and the commit step that replaces one mount's rows.

use vstd::prelude::*;

use crate::strutil::{contains_seq, join_with, lemma_join_split, lemma_split_len,
    lemma_split_pieces_sep_free, lower_of, split_on, split_string, views_of};
use crate::types::{
    Album, AlbumV, Artist, ArtistV, CollectionFile, CollectionFileV, Directory, DirectoryV, Error,
    Song, SongV,
};
use crate::vfs::{
    is_under, lemma_join_push, mount_views, parts_valid, under_root, valid_component,
    valid_mount_name, MountDirV, Vfs, PATH_SEPARATOR,
};

verus! {

/// The components of a virtual path.
pub open spec fn parts(p: Seq<char>) -> Seq<Seq<char>> {
    split_on(p, PATH_SEPARATOR)
}

/// The virtual path one level above `p`.
pub open spec fn parent_of(p: Seq<char>) -> Seq<char> {
    join_with(parts(p).drop_last(), PATH_SEPARATOR)
}

/// The views of a sequence of songs.
pub open spec fn songs_view(ss: Seq<Song>) -> Seq<SongV> {
    ss.map_values(|s: Song| s@)
}

/// The views of a sequence of directories.
pub open spec fn dirs_view(ds: Seq<Directory>) -> Seq<DirectoryV> {
    ds.map_values(|d: Directory| d@)
}

/// The views of a sequence of browse entries.
pub open spec fn cf_views(cs: Seq<CollectionFile>) -> Seq<CollectionFileV> {
    cs.map_values(|c: CollectionFile| c@)
}

/// Some stored directory has this virtual path.
pub open spec fn has_dir(ds: Seq<DirectoryV>, p: Seq<char>) -> bool {
    exists|i: int| 0 <= i < ds.len() && (#[trigger] ds[i]).virtual_path == p
}

/// Some stored song has this virtual path.
pub open spec fn has_song(ss: Seq<SongV>, p: Seq<char>) -> bool {
    exists|i: int| 0 <= i < ss.len() && (#[trigger] ss[i]).virtual_path == p
}

/// A well-formed stored song: at least two components (mount and file), all
/// usable, and the recorded parent is the path one level up.
pub open spec fn song_wf(s: SongV) -> bool {
    &&& parts(s.virtual_path).len() >= 2
    &&& parts_valid(parts(s.virtual_path))
    &&& s.virtual_parent == parent_of(s.virtual_path)
}

/// A well-formed stored directory: usable components, and the recorded
/// parent is the path one level up, or absent for a mount root.
pub open spec fn dir_wf(d: DirectoryV) -> bool {
    &&& parts(d.virtual_path).len() >= 1
    &&& parts_valid(parts(d.virtual_path))
    &&& d.virtual_parent == if parts(d.virtual_path).len() == 1 {
        None
    } else {
        Some(parent_of(d.virtual_path))
    }
}

/// The sub-directories directly inside the directory `dp`, in stored order.
pub open spec fn dir_children(ds: Seq<DirectoryV>, dp: Seq<char>) -> Seq<DirectoryV> {
    ds.filter(|d: DirectoryV| d.virtual_parent == Some(dp))
}

/// The songs directly inside the directory `dp`, in stored order.
pub open spec fn song_children(ss: Seq<SongV>, dp: Seq<char>) -> Seq<SongV> {
    ss.filter(|s: SongV| s.virtual_parent == dp)
}

/// The songs at or under the directory `dp`, recursively, in stored order.
pub open spec fn songs_under(ss: Seq<SongV>, dp: Seq<char>) -> Seq<SongV> {
    ss.filter(|s: SongV| is_under(dp, s.virtual_path))
}

/// What browsing a directory returns: its sub-directories, then its songs.
pub open spec fn browse_entries(
    ds: Seq<DirectoryV>,
    ss: Seq<SongV>,
    dp: Seq<char>,
) -> Seq<CollectionFileV> {
    dir_children(ds, dp).map_values(|d: DirectoryV| CollectionFileV::Directory(d))
        + song_children(ss, dp).map_values(|s: SongV| CollectionFileV::Song(s))
}

/// What browsing the empty path returns: every mount as a root directory.
pub open spec fn mounts_as_dirs(ms: Seq<MountDirV>) -> Seq<CollectionFileV> {
    ms.map_values(
        |m: MountDirV| CollectionFileV::Directory(
            DirectoryV { virtual_path: m.name, virtual_parent: None },
        ),
    )
}

/// One step of a forward filter loop.
pub proof fn lemma_filter_take_step<A>(s: Seq<A>, i: int, pred: spec_fn(A) -> bool)
    requires
        0 <= i < s.len(),
    ensures
        s.take(i + 1).filter(pred) == if pred(s[i]) {
            s.take(i).filter(pred).push(s[i])
        } else {
            s.take(i).filter(pred)
        },
{
    reveal(Seq::filter);
    let t1 = s.take(i + 1);
    assert(t1.len() == i + 1);
    assert(t1.filter(pred) == if pred(t1.last()) {
        t1.drop_last().filter(pred).push(t1.last())
    } else {
        t1.drop_last().filter(pred)
    });
    assert(t1.drop_last() =~= s.take(i));
    assert(t1.last() == s[i]);
}

/// Mapping after appending appends the mapped element.
pub proof fn lemma_map_values_push<A, B>(s: Seq<A>, x: A, f: spec_fn(A) -> B)
    ensures
        s.push(x).map_values(f) =~= s.map_values(f).push(f(x)),
{
    assert forall|j: int| 0 <= j < s.len() + 1 implies s.push(x).map_values(f)[j] == s.map_values(
        f,
    ).push(f(x))[j] by {
        if j < s.len() {
            assert(s.push(x)[j] == s[j]);
        } else {
            assert(s.push(x)[j] == x);
        }
    }
}

/// A walk entry is committed only if its path has the mount as first
/// component, at least one component below it, and no unusable component.
pub open spec fn song_ok(c: SongV, mount: Seq<char>) -> bool {
    &&& parts(c.virtual_path).len() >= 2
    &&& parts_valid(parts(c.virtual_path))
    &&& parts(c.virtual_path)[0] == mount
}

/// What the commit step stores for an accepted entry: the recorded parent is
/// recomputed from the path and the insertion timestamp is stamped on.
pub open spec fn stamp_song(c: SongV, ts: i64) -> SongV {
    SongV {
        path: c.path,
        virtual_path: c.virtual_path,
        virtual_parent: parent_of(c.virtual_path),
        track_number: c.track_number,
        disc_number: c.disc_number,
        title: c.title,
        artists: c.artists,
        album_artists: c.album_artists,
        year: c.year,
        album: c.album,
        artwork: c.artwork,
        duration: c.duration,
        lyricists: c.lyricists,
        composers: c.composers,
        genres: c.genres,
        labels: c.labels,
        date_added: ts,
    }
}

/// The path collides with an already accepted one: equal, above it, or below
/// it. A file cannot also be a directory.
pub open spec fn conflicts_with(acc: Seq<SongV>, vp: Seq<char>) -> bool {
    exists|i: int|
        0 <= i < acc.len() && (is_under((#[trigger] acc[i]).virtual_path, vp) || is_under(
            vp,
            acc[i].virtual_path,
        ))
}

/// The songs a commit keeps out of the candidate list, in order: usable
/// paths under the mount, first occurrence wins.
pub open spec fn accept_songs(cs: Seq<SongV>, mount: Seq<char>, ts: i64) -> Seq<SongV>
    decreases cs.len(),
{
    if cs.len() == 0 {
        Seq::<SongV>::empty()
    } else {
        let prev = accept_songs(cs.drop_last(), mount, ts);
        let c = cs.last();
        if song_ok(c, mount) && !conflicts_with(prev, c.virtual_path) {
            prev.push(stamp_song(c, ts))
        } else {
            prev
        }
    }
}

/// The path made of the first `k` components.
pub open spec fn prefix_path(pp: Seq<Seq<char>>, k: int) -> Seq<char> {
    join_with(pp.take(k), PATH_SEPARATOR)
}

/// Add the paths of the first `upto` prefixes of `pp`, shortest first,
/// skipping those already present.
pub open spec fn add_prefixes(acc: Seq<Seq<char>>, pp: Seq<Seq<char>>, upto: int) -> Seq<Seq<char>>
    decreases upto,
{
    if upto <= 0 {
        acc
    } else {
        let acc2 = add_prefixes(acc, pp, upto - 1);
        let p = prefix_path(pp, upto);
        if acc2.contains(p) {
            acc2
        } else {
            acc2.push(p)
        }
    }
}

/// Every directory path a song list gives rise to: all strict prefixes of
/// every song's virtual path, first need first.
pub open spec fn dir_paths_for(ss: Seq<SongV>) -> Seq<Seq<char>>
    decreases ss.len(),
{
    if ss.len() == 0 {
        Seq::<Seq<char>>::empty()
    } else {
        add_prefixes(
            dir_paths_for(ss.drop_last()),
            parts(ss.last().virtual_path),
            parts(ss.last().virtual_path).len() - 1,
        )
    }
}

/// The directory node stored for a derived path.
pub open spec fn dir_for(p: Seq<char>) -> DirectoryV {
    DirectoryV {
        virtual_path: p,
        virtual_parent: if parts(p).len() == 1 {
            None
        } else {
            Some(parent_of(p))
        },
    }
}

/// No two distinct entries lie on one path chain.
pub open spec fn pairwise_nonunder(ss: Seq<SongV>) -> bool {
    forall|i: int, j: int|
        0 <= i < ss.len() && 0 <= j < ss.len() && i != j ==> !is_under(
            (#[trigger] ss[i]).virtual_path,
            (#[trigger] ss[j]).virtual_path,
        )
}

/// No path repeated.
pub open spec fn no_dup_paths(ps: Seq<Seq<char>>) -> bool {
    forall|i: int, j: int| 0 <= i < j < ps.len() ==> ps[i] != ps[j]
}

/// Every listed path deeper than one component has its parent listed too.
pub open spec fn paths_closed(ps: Seq<Seq<char>>) -> bool {
    forall|i: int|
        0 <= i < ps.len() && parts(#[trigger] ps[i]).len() >= 2 ==> ps.contains(parent_of(ps[i]))
}

/// Every element a filter keeps was in the sequence.
pub proof fn lemma_filter_subset<A>(s: Seq<A>, pred: spec_fn(A) -> bool)
    ensures
        forall|i: int| 0 <= i < s.filter(pred).len() ==> s.contains(#[trigger] s.filter(pred)[i]),
    decreases s.len(),
{
    reveal(Seq::filter);
    if s.len() > 0 {
        lemma_filter_subset(s.drop_last(), pred);
        assert forall|i: int| 0 <= i < s.filter(pred).len() implies s.contains(
            #[trigger] s.filter(pred)[i],
        ) by {
            let f = s.filter(pred);
            let fd = s.drop_last().filter(pred);
            if i < fd.len() {
                assert(fd[i] == f[i]);
                assert(s.drop_last().contains(fd[i]));
                let k = choose|k: int| 0 <= k < s.drop_last().len() && s.drop_last()[k] == fd[i];
                assert(s[k] == f[i]);
            } else {
                assert(f[i] == s.last());
                assert(s[s.len() - 1] == s.last());
            }
        }
    }
}

/// A filter keeps every pairwise property that held of the whole sequence.
pub proof fn lemma_filter_preserves_pairwise<A>(
    s: Seq<A>,
    pred: spec_fn(A) -> bool,
    rel: spec_fn(A, A) -> bool,
)
    requires
        forall|i: int, j: int|
            0 <= i < s.len() && 0 <= j < s.len() && i != j ==> !rel(#[trigger] s[i], #[trigger] s[j]),
    ensures
        forall|i: int, j: int|
            0 <= i < s.filter(pred).len() && 0 <= j < s.filter(pred).len() && i != j ==> !rel(
                #[trigger] s.filter(pred)[i],
                #[trigger] s.filter(pred)[j],
            ),
    decreases s.len(),
{
    reveal(Seq::filter);
    if s.len() > 0 {
        lemma_filter_preserves_pairwise(s.drop_last(), pred, rel);
        lemma_filter_subset(s.drop_last(), pred);
        let f = s.filter(pred);
        let fd = s.drop_last().filter(pred);
        assert forall|i: int, j: int|
            0 <= i < f.len() && 0 <= j < f.len() && i != j implies !rel(
            #[trigger] f[i],
            #[trigger] f[j],
        ) by {
            if i < fd.len() && j < fd.len() {
                assert(f[i] == fd[i]);
                assert(f[j] == fd[j]);
            } else if i < fd.len() {
                assert(f[j] == s.last());
                assert(f[i] == fd[i]);
                assert(s.drop_last().contains(fd[i]));
                let k = choose|k: int|
                    0 <= k < s.drop_last().len() && s.drop_last()[k] == fd[i];
                assert(s[k] == f[i]);
                assert(!rel(s[k], s[s.len() - 1]));
            } else {
                assert(f[i] == s.last());
                assert(f[j] == fd[j]);
                assert(s.drop_last().contains(fd[j]));
                let k = choose|k: int|
                    0 <= k < s.drop_last().len() && s.drop_last()[k] == fd[j];
                assert(s[k] == f[j]);
                assert(!rel(s[s.len() - 1], s[k]));
            }
        }
    }
}

/// The components of a prefix path are exactly the first `k` components,
/// and its parent is the next shorter prefix.
pub proof fn lemma_prefix_path_parts(pp: Seq<Seq<char>>, k: int)
    requires
        1 <= k <= pp.len(),
        parts_valid(pp),
        forall|i: int| 0 <= i < pp.len() ==> crate::strutil::sep_free(#[trigger] pp[i], PATH_SEPARATOR),
    ensures
        parts(prefix_path(pp, k)) == pp.take(k),
        k >= 2 ==> parent_of(prefix_path(pp, k)) == prefix_path(pp, k - 1),
{
    let t = pp.take(k);
    assert(t.len() == k);
    assert(forall|i: int| 0 <= i < t.len() ==> t[i] == pp[i]);
    crate::strutil::lemma_split_join(t, PATH_SEPARATOR);
    assert(parts(prefix_path(pp, k)) =~~= t);
    if k >= 2 {
        assert(parts(prefix_path(pp, k)).drop_last() =~~= pp.take(k - 1));
    }
}

/// What holds of every accepted song list: entries are well-formed, sit
/// under the mount, carry the commit timestamp, and no two lie on one chain.
pub proof fn lemma_accept_props(cs: Seq<SongV>, mount: Seq<char>, ts: i64)
    ensures
        ({
            let acc = accept_songs(cs, mount, ts);
            &&& forall|i: int|
                0 <= i < acc.len() ==> song_wf(#[trigger] acc[i]) && parts(
                    acc[i].virtual_path,
                )[0] == mount && acc[i].date_added == ts
            &&& pairwise_nonunder(acc)
        }),
    decreases cs.len(),
{
    if cs.len() > 0 {
        lemma_accept_props(cs.drop_last(), mount, ts);
        let prev = accept_songs(cs.drop_last(), mount, ts);
        let c = cs.last();
        let acc = accept_songs(cs, mount, ts);
        if song_ok(c, mount) && !conflicts_with(prev, c.virtual_path) {
            let st = stamp_song(c, ts);
            assert(st.virtual_path == c.virtual_path);
            assert(song_wf(st));
            assert(pairwise_nonunder(acc)) by {
                assert forall|i: int, j: int|
                    0 <= i < acc.len() && 0 <= j < acc.len() && i != j implies !is_under(
                    (#[trigger] acc[i]).virtual_path,
                    (#[trigger] acc[j]).virtual_path,
                ) by {
                    if i < prev.len() && j < prev.len() {
                        assert(acc[i] == prev[i]);
                        assert(acc[j] == prev[j]);
                    } else if i < prev.len() {
                        assert(acc[j] == st);
                        assert(acc[i] == prev[i]);
                        assert(!is_under(prev[i].virtual_path, c.virtual_path));
                    } else {
                        assert(acc[i] == st);
                        assert(acc[j] == prev[j]);
                        assert(!is_under(c.virtual_path, prev[j].virtual_path));
                    }
                }
            }
        }
    }
}

/// What `add_prefixes` guarantees: it only grows the list, it adds every
/// prefix up to `upto`, everything new is such a prefix, and it keeps the
/// list duplicate-free and parent-closed.
pub proof fn lemma_add_prefixes_props(acc: Seq<Seq<char>>, pp: Seq<Seq<char>>, upto: int)
    requires
        upto <= pp.len(),
        parts_valid(pp),
        forall|i: int|
            0 <= i < pp.len() ==> crate::strutil::sep_free(#[trigger] pp[i], PATH_SEPARATOR),
    ensures
        ({
            let r = add_prefixes(acc, pp, upto);
            &&& forall|x: Seq<char>| acc.contains(x) ==> r.contains(x)
            &&& forall|k: int| 1 <= k <= upto ==> r.contains(#[trigger] prefix_path(pp, k))
            &&& forall|x: Seq<char>|
                r.contains(x) ==> acc.contains(x) || exists|k: int|
                    1 <= k <= upto && x == prefix_path(pp, k)
            &&& no_dup_paths(acc) ==> no_dup_paths(r)
            &&& paths_closed(acc) ==> paths_closed(r)
        }),
    decreases upto,
{
    if upto <= 0 {
    } else {
        lemma_add_prefixes_props(acc, pp, upto - 1);
        let acc2 = add_prefixes(acc, pp, upto - 1);
        let p = prefix_path(pp, upto);
        let r = add_prefixes(acc, pp, upto);
        lemma_prefix_path_parts(pp, upto);
        assert forall|x: Seq<char>| acc2.contains(x) implies r.contains(x) by {
            if !acc2.contains(p) {
                let k = choose|k: int| 0 <= k < acc2.len() && acc2[k] == x;
                assert(r[k] == x);
            }
        }
        if !acc2.contains(p) {
            assert(r[r.len() - 1] == p);
        }
        assert(r.contains(p));
        assert forall|x: Seq<char>| r.contains(x) implies acc.contains(x) || exists|k: int|
            1 <= k <= upto && x == prefix_path(pp, k) by {
            if x != p {
                let k = choose|k: int| 0 <= k < r.len() && r[k] == x;
                if !acc2.contains(p) && k == r.len() - 1 {
                    assert(x == p);
                } else {
                    assert(acc2[k] == x);
                    assert(acc2.contains(x));
                }
            }
        }
        if no_dup_paths(acc) {
            assert(no_dup_paths(acc2));
            if !acc2.contains(p) {
                assert forall|i: int, j: int| 0 <= i < j < r.len() implies r[i] != r[j] by {
                    if j == r.len() - 1 {
                        assert(r[i] == acc2[i]);
                        assert(acc2.contains(acc2[i]));
                    }
                }
            }
        }
        if paths_closed(acc) {
            assert(paths_closed(acc2));
            if !acc2.contains(p) {
                assert forall|i: int|
                    0 <= i < r.len() && parts(#[trigger] r[i]).len() >= 2 implies r.contains(
                    parent_of(r[i]),
                ) by {
                    if i < acc2.len() {
                        assert(acc2.contains(parent_of(acc2[i])));
                        let k = choose|k: int|
                            0 <= k < acc2.len() && acc2[k] == parent_of(acc2[i]);
                        assert(r[k] == parent_of(r[i]));
                    } else {
                        assert(r[i] == p);
                        assert(parts(p) == pp.take(upto));
                        assert(upto >= 2);
                        assert(parent_of(p) == prefix_path(pp, upto - 1));
                        assert(acc2.contains(prefix_path(pp, upto - 1)));
                        let k = choose|k: int|
                            0 <= k < acc2.len() && acc2[k] == prefix_path(pp, upto - 1);
                        assert(r[k] == parent_of(p));
                    }
                }
            }
        }
    }
}

/// Whether a candidate entry is acceptable under this mount.
fn check_song_ok(c: &Song, mount: &str) -> (r: bool)
    ensures
        r == song_ok(c@, mount@),
{
    let comps = split_string(c.virtual_path.as_str(), PATH_SEPARATOR);
    let ghost pp = parts(c.virtual_path@);
    if comps.len() < 2 {
        return false;
    }
    if !crate::strutil::eq_str(comps[0].as_str(), mount) {
        proof {
            assert(pp[0] == comps@[0]@);
        }
        return false;
    }
    let mut k: usize = 0;
    while k < comps.len()
        invariant
            k <= comps@.len(),
            comps@.len() >= 2,
            pp == parts(c.virtual_path@),
            views_of(comps@) =~~= pp,
            forall|t: int| 0 <= t < k ==> valid_component(#[trigger] pp[t]),
        decreases comps@.len() - k,
    {
        if !crate::vfs::check_component(comps[k].as_str()) {
            proof {
                assert(pp[k as int] == comps@[k as int]@);
                assert(!parts_valid(pp));
            }
            return false;
        }
        k += 1;
    }
    proof {
        assert(parts_valid(pp));
        assert(pp[0] == comps@[0]@);
    }
    true
}

/// Whether the path collides with an already accepted one.
fn check_conflicts(acc: &Vec<Song>, vp: &str) -> (r: bool)
    ensures
        r == conflicts_with(songs_view(acc@), vp@),
{
    let ghost av = songs_view(acc@);
    let mut i: usize = 0;
    while i < acc.len()
        invariant
            i <= acc@.len(),
            av == songs_view(acc@),
            forall|k: int|
                0 <= k < i ==> !is_under((#[trigger] av[k]).virtual_path, vp@) && !is_under(
                    vp@,
                    av[k].virtual_path,
                ),
        decreases acc@.len() - i,
    {
        let avp = acc[i].virtual_path.as_str();
        if under_root(vp, avp) || under_root(avp, vp) {
            proof {
                assert(av[i as int].virtual_path == acc@[i as int].virtual_path@);
            }
            return true;
        }
        i += 1;
    }
    false
}

/// The path one level above a path of two or more usable components.
fn parent_string(vp: &str) -> (r: String)
    requires
        parts(vp@).len() >= 2,
        parts_valid(parts(vp@)),
    ensures
        r@ == parent_of(vp@),
{
    let ghost pp = parts(vp@);
    let ghost jref = join_with(pp.drop_last(), PATH_SEPARATOR);
    proof {
        lemma_split_pieces_sep_free(vp@, PATH_SEPARATOR);
        lemma_join_split(vp@, PATH_SEPARATOR);
        lemma_join_push(pp.drop_last(), pp.last(), PATH_SEPARATOR);
        assert(pp.drop_last().push(pp.last()) =~~= pp);
        assert(vp@ =~= jref + seq![PATH_SEPARATOR] + pp.last());
    }
    let n = vp.unicode_len();
    let ghost cut = jref.len() as int;
    proof {
        assert(vp@.len() == jref.len() + 1 + pp.last().len());
        assert(vp@[cut] == PATH_SEPARATOR);
        assert(forall|t: int| cut < t < vp@.len() ==> vp@[t] == pp.last()[t - cut - 1]);
        assert(forall|t: int| cut < t < vp@.len() ==> vp@[t] != PATH_SEPARATOR);
    }
    proof {
        assert(vp@.subrange(0, cut) =~= jref);
    }
    let mut i: usize = n;
    while i > 0
        invariant
            i <= n,
            n == vp@.len(),
            cut == jref.len(),
            cut < n,
            vp@.subrange(0, cut) == jref,
            parent_of(vp@) == jref,
            vp@[cut] == PATH_SEPARATOR,
            forall|t: int| cut < t < vp@.len() ==> vp@[t] != PATH_SEPARATOR,
            forall|t: int| i <= t < n ==> vp@[t] != PATH_SEPARATOR,
            i > cut,
        decreases i,
    {
        i -= 1;
        if vp.get_char(i) == PATH_SEPARATOR {
            proof {
                assert(i as int == cut);
                assert(vp@.subrange(0, cut) =~= jref);
            }
            let parent = vp.substring_char(0, i);
            return parent.to_owned();
        }
    }
    proof {
        assert(false);
    }
    String::new()
}

/// Whether the list already holds this path.
fn contains_path(v: &Vec<String>, x: &str) -> (r: bool)
    ensures
        r == views_of(v@).contains(x@),
{
    let ghost vv = views_of(v@);
    let mut i: usize = 0;
    while i < v.len()
        invariant
            i <= v@.len(),
            vv == views_of(v@),
            forall|k: int| 0 <= k < i ==> vv[k] != x@,
        decreases v@.len() - i,
    {
        if crate::strutil::eq_str(v[i].as_str(), x) {
            proof {
                assert(vv[i as int] == x@);
            }
            return true;
        }
        i += 1;
    }
    proof {
        if vv.contains(x@) {
            let k = choose|k: int| 0 <= k < vv.len() && vv[k] == x@;
        }
    }
    false
}

/// One step of the accept loop.
pub proof fn lemma_accept_take_step(cs: Seq<SongV>, i: int, mount: Seq<char>, ts: i64)
    requires
        0 <= i < cs.len(),
    ensures
        accept_songs(cs.take(i + 1), mount, ts) == ({
            let prev = accept_songs(cs.take(i), mount, ts);
            if song_ok(cs[i], mount) && !conflicts_with(prev, cs[i].virtual_path) {
                prev.push(stamp_song(cs[i], ts))
            } else {
                prev
            }
        }),
{
    assert(cs.take(i + 1).drop_last() =~= cs.take(i));
    assert(cs.take(i + 1).last() == cs[i]);
}

/// One step of the prefix-derivation loop over songs.
pub proof fn lemma_dir_paths_take_step(ss: Seq<SongV>, j: int)
    requires
        0 <= j < ss.len(),
    ensures
        dir_paths_for(ss.take(j + 1)) == add_prefixes(
            dir_paths_for(ss.take(j)),
            parts(ss[j].virtual_path),
            parts(ss[j].virtual_path).len() - 1,
        ),
{
    assert(ss.take(j + 1).drop_last() =~= ss.take(j));
    assert(ss.take(j + 1).last() == ss[j]);
}

/// Lying under a mount root is the same as having its name as first
/// component.
pub proof fn lemma_first_comp_under(mname: Seq<char>, p: Seq<char>)
    requires
        valid_mount_name(mname),
    ensures
        is_under(mname, p) <==> parts(p)[0] == mname,
{
    crate::vfs::lemma_under_iff(mname, p);
    crate::strutil::lemma_split_sep_free(mname, PATH_SEPARATOR);
    lemma_split_len(p, PATH_SEPARATOR);
    assert(parts(mname) =~~= seq![mname]);
    if parts(mname).is_prefix_of(parts(p)) {
        assert(parts(p).take(1) =~~= seq![mname]);
        assert(parts(p)[0] == mname);
    }
    if parts(p)[0] == mname {
        assert(parts(p).take(1) =~~= seq![mname]);
        assert(parts(mname).is_prefix_of(parts(p)));
    }
}

/// The components of a parent path are the components minus the last one.
pub proof fn lemma_parent_parts(p: Seq<char>)
    requires
        parts(p).len() >= 2,
        parts_valid(parts(p)),
    ensures
        parts(parent_of(p)) == parts(p).drop_last(),
        parts(parent_of(p)).len() >= 1,
        parts(parent_of(p))[0] == parts(p)[0],
{
    lemma_split_pieces_sep_free(p, PATH_SEPARATOR);
    crate::strutil::lemma_split_join(parts(p).drop_last(), PATH_SEPARATOR);
    assert(parts(parent_of(p)) =~~= parts(p).drop_last());
}

/// What the derived directory paths of a well-formed song list satisfy.
pub proof fn lemma_dir_paths_props(ss: Seq<SongV>)
    requires
        forall|i: int| 0 <= i < ss.len() ==> song_wf(#[trigger] ss[i]),
    ensures
        ({
            let r = dir_paths_for(ss);
            &&& no_dup_paths(r)
            &&& paths_closed(r)
            &&& forall|x: Seq<char>|
                r.contains(x) ==> exists|j: int, k: int|
                    0 <= j < ss.len() && 1 <= k <= parts(ss[j].virtual_path).len() - 1 && x == (
                    #[trigger] prefix_path(parts(ss[j].virtual_path), k))
            &&& forall|j: int, k: int|
                0 <= j < ss.len() && 1 <= k <= parts(ss[j].virtual_path).len() - 1 ==> r.contains(
                    #[trigger] prefix_path(parts(ss[j].virtual_path), k),
                )
        }),
    decreases ss.len(),
{
    if ss.len() > 0 {
        assert(forall|i: int| 0 <= i < ss.drop_last().len() ==> song_wf(#[trigger] ss.drop_last()[i]));
        lemma_dir_paths_props(ss.drop_last());
        let prev = dir_paths_for(ss.drop_last());
        let s = ss.last();
        let pp = parts(s.virtual_path);
        lemma_split_pieces_sep_free(s.virtual_path, PATH_SEPARATOR);
        lemma_add_prefixes_props(prev, pp, pp.len() - 1);
        let r = dir_paths_for(ss);
        assert(r == add_prefixes(prev, pp, pp.len() - 1));
        assert forall|x: Seq<char>| r.contains(x) implies exists|j: int, k: int|
            0 <= j < ss.len() && 1 <= k <= parts(ss[j].virtual_path).len() - 1 && x == (
            #[trigger] prefix_path(parts(ss[j].virtual_path), k)) by {
            if prev.contains(x) {
                let (j, k): (int, int) = choose|j: int, k: int|
                    0 <= j < ss.drop_last().len() && 1 <= k <= parts(
                        ss.drop_last()[j].virtual_path,
                    ).len() - 1 && x == (#[trigger] prefix_path(
                        parts(ss.drop_last()[j].virtual_path),
                        k,
                    ));
                assert(ss.drop_last()[j] == ss[j]);
                assert(x == prefix_path(parts(ss[j].virtual_path), k));
            } else {
                let k = choose|k: int| 1 <= k <= pp.len() - 1 && x == prefix_path(pp, k);
                assert(ss[ss.len() - 1] == s);
                assert(x == prefix_path(parts(ss[ss.len() - 1].virtual_path), k));
            }
        }
        assert forall|j: int, k: int|
            0 <= j < ss.len() && 1 <= k <= parts(ss[j].virtual_path).len() - 1 implies r.contains(
            #[trigger] prefix_path(parts(ss[j].virtual_path), k),
        ) by {
            if j < ss.len() - 1 {
                assert(ss.drop_last()[j] == ss[j]);
                assert(prev.contains(prefix_path(parts(ss.drop_last()[j].virtual_path), k)));
            } else {
                assert(ss[j] == s);
            }
        }
    }
}

/// The folded text contains the folded query.
pub open spec fn text_matches(ql: Seq<char>, t: Seq<char>) -> bool {
    contains_seq(lower_of(t), ql)
}

/// Some value of a multi-valued field matches.
pub open spec fn any_matches(ql: Seq<char>, ts: Seq<Seq<char>>) -> bool {
    exists|i: int| 0 <= i < ts.len() && text_matches(ql, #[trigger] ts[i])
}

/// A song matches on its title, album, any artist or album artist, or its
/// virtual path.
pub open spec fn song_matches(ql: Seq<char>, s: SongV) -> bool {
    ||| (s.title matches Some(t) && text_matches(ql, t))
    ||| (s.album matches Some(a) && text_matches(ql, a))
    ||| any_matches(ql, s.artists)
    ||| any_matches(ql, s.album_artists)
    ||| text_matches(ql, s.virtual_path)
}

/// A directory matches on its virtual path.
pub open spec fn dir_matches(ql: Seq<char>, d: DirectoryV) -> bool {
    text_matches(ql, d.virtual_path)
}

/// What a search returns: the matching directories, then the matching songs,
/// each in stored order.
pub open spec fn search_entries(
    ds: Seq<DirectoryV>,
    ss: Seq<SongV>,
    ql: Seq<char>,
) -> Seq<CollectionFileV> {
    ds.filter(|d: DirectoryV| dir_matches(ql, d)).map_values(
        |d: DirectoryV| CollectionFileV::Directory(d),
    ) + ss.filter(|s: SongV| song_matches(ql, s)).map_values(|s: SongV| CollectionFileV::Song(s))
}

/// Whether the album credits the artist by name.
fn album_credits(a: &Album, name: &str) -> (r: bool)
    ensures
        r == a@.artists.contains(name@),
{
    let ghost vv = views_of(a.artists@);
    let mut i: usize = 0;
    while i < a.artists.len()
        invariant
            i <= a.artists@.len(),
            vv == views_of(a.artists@),
            forall|k: int| 0 <= k < i ==> vv[k] != name@,
        decreases a.artists@.len() - i,
    {
        if crate::strutil::eq_str(a.artists[i].as_str(), name) {
            proof {
                assert(vv[i as int] == name@);
            }
            return true;
        }
        i += 1;
    }
    proof {
        if vv.contains(name@) {
            let k = choose|k: int| 0 <= k < vv.len() && vv[k] == name@;
        }
    }
    false
}

/// The first artwork any of the songs carries, as an owned path.
fn first_artwork_exec(songs: &Vec<Song>) -> (r: Option<String>)
    ensures
        crate::types::opt_view(r) == first_artwork(songs_view(songs@)),
{
    let ghost asv = songs_view(songs@);
    proof {
        assert(asv.skip(0) =~= asv);
    }
    let mut i: usize = 0;
    while i < songs.len()
        invariant
            i <= songs@.len(),
            asv == songs_view(songs@),
            first_artwork(asv) == first_artwork(asv.skip(i as int)),
        decreases songs@.len() - i,
    {
        proof {
            assert(asv.skip(i as int)[0] == asv[i as int]);
            assert(asv[i as int] == songs@[i as int]@);
            assert(asv.skip(i as int).skip(1) =~= asv.skip(i as int + 1));
        }
        match &songs[i].artwork {
            Some(p) => {
                return Some(p.clone());
            },
            None => {},
        }
        i += 1;
    }
    None
}

/// Whether any value of the field matches the folded query.
fn any_matches_exec(values: &Vec<String>, ql: &str) -> (r: bool)
    ensures
        r == any_matches(ql@, views_of(values@)),
{
    let ghost vv = views_of(values@);
    let mut i: usize = 0;
    while i < values.len()
        invariant
            i <= values@.len(),
            vv == views_of(values@),
            forall|k: int| 0 <= k < i ==> !text_matches(ql@, #[trigger] vv[k]),
        decreases values@.len() - i,
    {
        let low = crate::strutil::lowercase(values[i].as_str());
        if crate::strutil::str_contains(low.as_str(), ql) {
            proof {
                assert(vv[i as int] == values@[i as int]@);
                assert(text_matches(ql@, vv[i as int]));
            }
            return true;
        }
        i += 1;
    }
    false
}

/// Whether a song matches the folded query.
fn song_matches_exec(s: &Song, ql: &str) -> (r: bool)
    ensures
        r == song_matches(ql@, s@),
{
    match &s.title {
        Some(t) => {
            let low = crate::strutil::lowercase(t.as_str());
            if crate::strutil::str_contains(low.as_str(), ql) {
                return true;
            }
        },
        None => {},
    }
    match &s.album {
        Some(a) => {
            let low = crate::strutil::lowercase(a.as_str());
            if crate::strutil::str_contains(low.as_str(), ql) {
                return true;
            }
        },
        None => {},
    }
    if any_matches_exec(&s.artists.0, ql) {
        return true;
    }
    if any_matches_exec(&s.album_artists.0, ql) {
        return true;
    }
    let low = crate::strutil::lowercase(s.virtual_path.as_str());
    if crate::strutil::str_contains(low.as_str(), ql) {
        return true;
    }
    false
}

/// The distinct album names among the songs, in order of first appearance;
/// songs without an album name contribute to no album.
pub open spec fn album_name_list(ss: Seq<SongV>) -> Seq<Seq<char>>
    decreases ss.len(),
{
    if ss.len() == 0 {
        Seq::<Seq<char>>::empty()
    } else {
        let prev = album_name_list(ss.drop_last());
        match ss.last().album {
            Option::None => prev,
            Option::Some(n) => if prev.contains(n) {
                prev
            } else {
                prev.push(n)
            },
        }
    }
}

/// The songs that carry this album name, in stored order.
pub open spec fn album_songs(ss: Seq<SongV>, n: Seq<char>) -> Seq<SongV> {
    ss.filter(|s: SongV| s.album == Some(n))
}

/// The earliest insertion time among the songs; the album's age.
pub open spec fn min_date(ss: Seq<SongV>) -> i64
    decreases ss.len(),
{
    if ss.len() == 0 {
        0
    } else if ss.len() == 1 {
        ss.last().date_added
    } else {
        let m = min_date(ss.drop_last());
        if ss.last().date_added < m {
            ss.last().date_added
        } else {
            m
        }
    }
}

/// The first artwork any of the songs carries.
pub open spec fn first_artwork(ss: Seq<SongV>) -> Option<Seq<char>>
    decreases ss.len(),
{
    if ss.len() == 0 {
        Option::<Seq<char>>::None
    } else if ss[0].artwork is Some {
        ss[0].artwork
    } else {
        first_artwork(ss.skip(1))
    }
}

/// Who an album credits for one song: its album artists, or its artists
/// where no album artist is tagged.
pub open spec fn contributors(s: SongV) -> Seq<Seq<char>> {
    if s.album_artists.len() > 0 {
        s.album_artists
    } else {
        s.artists
    }
}

/// Fold the first `upto` names into the list, keeping first appearances.
pub open spec fn merge_names(acc: Seq<Seq<char>>, xs: Seq<Seq<char>>, upto: int) -> Seq<Seq<char>>
    decreases upto,
{
    if upto <= 0 {
        acc
    } else {
        let a2 = merge_names(acc, xs, upto - 1);
        if a2.contains(xs[upto - 1]) {
            a2
        } else {
            a2.push(xs[upto - 1])
        }
    }
}

/// The distinct contributing artist names across the songs, in order of
/// first appearance.
pub open spec fn album_artist_list(ss: Seq<SongV>) -> Seq<Seq<char>>
    decreases ss.len(),
{
    if ss.len() == 0 {
        Seq::<Seq<char>>::empty()
    } else {
        merge_names(
            album_artist_list(ss.drop_last()),
            contributors(ss.last()),
            contributors(ss.last()).len() as int,
        )
    }
}

/// The derived album grouping for one name. Songs are grouped by album name
/// alone; the year is the first contributing song's, the artwork the first
/// any song carries, the age the earliest contribution.
pub open spec fn album_of(ss: Seq<SongV>, n: Seq<char>) -> AlbumV {
    let songs = album_songs(ss, n);
    AlbumV {
        name: Some(n),
        artwork: first_artwork(songs),
        artists: album_artist_list(songs),
        year: if songs.len() > 0 {
            songs[0].year
        } else {
            Option::<i64>::None
        },
        date_added: min_date(songs),
        songs,
    }
}

/// Every derived album of the collection, in order of first appearance of
/// its name.
pub open spec fn albums_of(ss: Seq<SongV>) -> Seq<AlbumV> {
    album_name_list(ss).map_values(|n: Seq<char>| album_of(ss, n))
}

/// The distinct contributing artist names across all albums, in order of
/// first appearance.
pub open spec fn artist_name_list(als: Seq<AlbumV>) -> Seq<Seq<char>>
    decreases als.len(),
{
    if als.len() == 0 {
        Seq::<Seq<char>>::empty()
    } else {
        merge_names(
            artist_name_list(als.drop_last()),
            als.last().artists,
            als.last().artists.len() as int,
        )
    }
}

/// The albums crediting one artist, in stored order.
pub open spec fn albums_crediting(als: Seq<AlbumV>, n: Seq<char>) -> Seq<AlbumV> {
    als.filter(|a: AlbumV| a.artists.contains(n))
}

/// The derived artist grouping for one name.
pub open spec fn artist_of(als: Seq<AlbumV>, n: Seq<char>) -> ArtistV {
    ArtistV { name: Some(n), albums: albums_crediting(als, n) }
}

/// Every derived artist, in order of first appearance of the name.
pub open spec fn artists_of(als: Seq<AlbumV>) -> Seq<ArtistV> {
    artist_name_list(als).map_values(|n: Seq<char>| artist_of(als, n))
}

/// One step of the artist-name collection loop.
pub proof fn lemma_artist_names_take_step(als: Seq<AlbumV>, i: int)
    requires
        0 <= i < als.len(),
    ensures
        artist_name_list(als.take(i + 1)) == merge_names(
            artist_name_list(als.take(i)),
            als[i].artists,
            als[i].artists.len() as int,
        ),
{
    assert(als.take(i + 1).drop_last() =~= als.take(i));
    assert(als.take(i + 1).last() == als[i]);
}

/// One step of the name-collection loop.
pub proof fn lemma_names_take_step(ss: Seq<SongV>, i: int)
    requires
        0 <= i < ss.len(),
    ensures
        album_name_list(ss.take(i + 1)) == ({
            let prev = album_name_list(ss.take(i));
            match ss[i].album {
                Option::None => prev,
                Option::Some(n) => if prev.contains(n) {
                    prev
                } else {
                    prev.push(n)
                },
            }
        }),
{
    assert(ss.take(i + 1).drop_last() =~= ss.take(i));
    assert(ss.take(i + 1).last() == ss[i]);
}

/// One step of the oldest-contribution loop.
pub proof fn lemma_min_date_take_step(ss: Seq<SongV>, i: int)
    requires
        0 <= i < ss.len(),
    ensures
        min_date(ss.take(i + 1)) == if i == 0 {
            ss[0].date_added
        } else {
            let m = min_date(ss.take(i));
            if ss[i].date_added < m {
                ss[i].date_added
            } else {
                m
            }
        },
{
    assert(ss.take(i + 1).drop_last() =~= ss.take(i));
    assert(ss.take(i + 1).last() == ss[i]);
}

/// One step of the contributing-artist loop.
pub proof fn lemma_artists_take_step(ss: Seq<SongV>, i: int)
    requires
        0 <= i < ss.len(),
    ensures
        album_artist_list(ss.take(i + 1)) == merge_names(
            album_artist_list(ss.take(i)),
            contributors(ss[i]),
            contributors(ss[i]).len() as int,
        ),
{
    assert(ss.take(i + 1).drop_last() =~= ss.take(i));
    assert(ss.take(i + 1).last() == ss[i]);
}

/// A filter that keeps everything is the identity.
pub proof fn lemma_filter_all<A>(s: Seq<A>, pred: spec_fn(A) -> bool)
    requires
        forall|i: int| 0 <= i < s.len() ==> pred(#[trigger] s[i]),
    ensures
        s.filter(pred) =~= s,
    decreases s.len(),
{
    reveal(Seq::filter);
    if s.len() > 0 {
        assert(forall|i: int| 0 <= i < s.drop_last().len() ==> pred(#[trigger] s.drop_last()[i]));
        lemma_filter_all(s.drop_last(), pred);
        assert(s.filter(pred) =~= s.drop_last().push(s.last()));
        assert(s.drop_last().push(s.last()) =~= s);
    }
}

/// A filter that keeps nothing empties the sequence.
pub proof fn lemma_filter_none<A>(s: Seq<A>, pred: spec_fn(A) -> bool)
    requires
        forall|i: int| 0 <= i < s.len() ==> !pred(#[trigger] s[i]),
    ensures
        s.filter(pred) =~= Seq::<A>::empty(),
    decreases s.len(),
{
    reveal(Seq::filter);
    if s.len() > 0 {
        assert(forall|i: int| 0 <= i < s.drop_last().len() ==> !pred(#[trigger] s.drop_last()[i]));
        lemma_filter_none(s.drop_last(), pred);
    }
}

/// The song with its insertion time cleared; what "the same song, the
/// insertion time aside" means.
pub open spec fn date_cleared(s: SongV) -> SongV {
    SongV {
        path: s.path,
        virtual_path: s.virtual_path,
        virtual_parent: s.virtual_parent,
        track_number: s.track_number,
        disc_number: s.disc_number,
        title: s.title,
        artists: s.artists,
        album_artists: s.album_artists,
        year: s.year,
        album: s.album,
        artwork: s.artwork,
        duration: s.duration,
        lyricists: s.lyricists,
        composers: s.composers,
        genres: s.genres,
        labels: s.labels,
        date_added: 0,
    }
}

/// What a commit leaves in the song table.
pub open spec fn commit_songs(
    old_sv: Seq<SongV>,
    cv: Seq<SongV>,
    msq: Seq<char>,
    ts: i64,
) -> Seq<SongV> {
    old_sv.filter(|s: SongV| !is_under(msq, s.virtual_path)) + accept_songs(cv, msq, ts)
}

/// The acceptance decisions do not depend on the timestamp: two commits of
/// one candidate list keep the same songs, stamped with their own time.
pub proof fn lemma_accept_restamp(cs: Seq<SongV>, msq: Seq<char>, t1: i64, t2: i64)
    ensures
        accept_songs(cs, msq, t2) =~= accept_songs(cs, msq, t1).map_values(
            |s: SongV| stamp_song(s, t2),
        ),
    decreases cs.len(),
{
    if cs.len() > 0 {
        lemma_accept_restamp(cs.drop_last(), msq, t1, t2);
        let p1 = accept_songs(cs.drop_last(), msq, t1);
        let p2 = accept_songs(cs.drop_last(), msq, t2);
        let c = cs.last();
        assert(p2 =~= p1.map_values(|s: SongV| stamp_song(s, t2)));
        assert(conflicts_with(p2, c.virtual_path) == conflicts_with(p1, c.virtual_path)) by {
            assert(forall|i: int|
                0 <= i < p1.len() ==> (#[trigger] p2[i]).virtual_path == p1[i].virtual_path);
            if conflicts_with(p1, c.virtual_path) {
                let w = choose|w: int|
                    0 <= w < p1.len() && (is_under(
                        (#[trigger] p1[w]).virtual_path,
                        c.virtual_path,
                    ) || is_under(c.virtual_path, p1[w].virtual_path));
                assert(is_under(p2[w].virtual_path, c.virtual_path) || is_under(
                    c.virtual_path,
                    p2[w].virtual_path,
                ));
            }
            if conflicts_with(p2, c.virtual_path) {
                let w = choose|w: int|
                    0 <= w < p2.len() && (is_under(
                        (#[trigger] p2[w]).virtual_path,
                        c.virtual_path,
                    ) || is_under(c.virtual_path, p2[w].virtual_path));
                assert(is_under(p1[w].virtual_path, c.virtual_path) || is_under(
                    c.virtual_path,
                    p1[w].virtual_path,
                ));
            }
        }
        if song_ok(c, msq) && !conflicts_with(p1, c.virtual_path) {
            lemma_map_values_push(p1, stamp_song(c, t1), |s: SongV| stamp_song(s, t2));
            assert(stamp_song(stamp_song(c, t1), t2) == stamp_song(c, t2));
        }
    }
}

/// Reindexing an unchanged tree twice leaves the song table as it stood:
/// with the same timestamp the second commit changes nothing at all, and
/// with a fresh timestamp it returns the same songs in the same order, the
/// insertion time aside.
pub proof fn lemma_reindex_idempotent(
    old_sv: Seq<SongV>,
    cv: Seq<SongV>,
    msq: Seq<char>,
    t1: i64,
    t2: i64,
)
    requires
        valid_mount_name(msq),
    ensures
        ({
            let sv1 = commit_songs(old_sv, cv, msq, t1);
            let sv2 = commit_songs(sv1, cv, msq, t2);
            &&& t2 == t1 ==> sv2 == sv1
            &&& sv2.map_values(|s: SongV| date_cleared(s)) =~~= sv1.map_values(
                |s: SongV| date_cleared(s),
            )
        }),
{
    let ps = |s: SongV| !is_under(msq, s.virtual_path);
    let kept = old_sv.filter(ps);
    let acc1 = accept_songs(cv, msq, t1);
    let acc2 = accept_songs(cv, msq, t2);
    let sv1 = commit_songs(old_sv, cv, msq, t1);
    let sv2 = commit_songs(sv1, cv, msq, t2);
    lemma_accept_props(cv, msq, t1);
    lemma_accept_props(cv, msq, t2);
    Seq::<SongV>::filter_distributes_over_add(kept, acc1, ps);
    assert forall|i: int| 0 <= i < kept.len() implies ps(#[trigger] kept[i]) by {
        old_sv.lemma_filter_pred(ps, i);
    }
    lemma_filter_all(kept, ps);
    assert forall|i: int| 0 <= i < acc1.len() implies !ps(#[trigger] acc1[i]) by {
        lemma_first_comp_under(msq, acc1[i].virtual_path);
    }
    lemma_filter_none(acc1, ps);
    assert(sv1.filter(ps) =~= kept);
    assert(sv2 =~= kept + acc2);
    lemma_accept_restamp(cv, msq, t1, t2);
    if t2 == t1 {
        assert(acc2 =~= acc1) by {
            assert(acc2 =~= acc1.map_values(|s: SongV| stamp_song(s, t2)));
            assert forall|i: int| 0 <= i < acc1.len() implies stamp_song(#[trigger] acc1[i], t2)
                == acc1[i] by {
                assert(song_wf(acc1[i]));
                assert(acc1[i].date_added == t1);
            }
        }
        assert(sv2 =~= sv1);
    }
    assert forall|i: int| 0 <= i < sv2.len() implies date_cleared(#[trigger] sv2[i])
        == date_cleared(sv1[i]) by {
        if i < kept.len() {
            assert(sv2[i] == kept[i]);
            assert(sv1[i] == kept[i]);
        } else {
            assert(sv2[i] == acc2[i - kept.len()]);
            assert(sv1[i] == acc1[i - kept.len()]);
            assert(acc2[i - kept.len()] == stamp_song(acc1[i - kept.len()], t2));
            assert(song_wf(acc1[i - kept.len()]));
            assert(date_cleared(sv2[i]) == date_cleared(sv1[i]));
        }
    }
    assert(sv2.map_values(|s: SongV| date_cleared(s)) =~~= sv1.map_values(
        |s: SongV| date_cleared(s),
    ));
}

/// A directory chain runs down to every prefix: if the directory made of the
/// first `lim` components is stored, so is the one made of the first `k`.
pub proof fn lemma_dir_chain(dv: Seq<DirectoryV>, pp: Seq<Seq<char>>, k: int, lim: int)
    requires
        forall|i: int| 0 <= i < dv.len() ==> dir_wf(#[trigger] dv[i]),
        forall|i: int|
            0 <= i < dv.len() && parts((#[trigger] dv[i]).virtual_path).len() >= 2 ==> has_dir(
                dv,
                parent_of(dv[i].virtual_path),
            ),
        parts_valid(pp),
        forall|i: int|
            0 <= i < pp.len() ==> crate::strutil::sep_free(#[trigger] pp[i], PATH_SEPARATOR),
        1 <= k <= lim <= pp.len(),
        has_dir(dv, prefix_path(pp, lim)),
    ensures
        has_dir(dv, prefix_path(pp, k)),
    decreases lim - k,
{
    if k == lim {
    } else {
        let w = choose|w: int|
            0 <= w < dv.len() && (#[trigger] dv[w]).virtual_path == prefix_path(pp, lim);
        lemma_prefix_path_parts(pp, lim);
        assert(parts(dv[w].virtual_path).len() == lim);
        assert(lim >= 2);
        assert(has_dir(dv, parent_of(dv[w].virtual_path)));
        assert(parent_of(dv[w].virtual_path) == prefix_path(pp, lim - 1));
        lemma_dir_chain(dv, pp, k, lim - 1);
    }
}

/// Browse and flatten agree: the songs at or under a stored directory are
/// exactly its direct song children together with the songs at or under its
/// directory children, for every stored directory.
pub proof fn lemma_browse_flatten_consistent(sv: Seq<SongV>, dv: Seq<DirectoryV>, dp: Seq<char>)
    requires
        store_wf(sv, dv),
        has_dir(dv, dp),
    ensures
        forall|i: int|
            0 <= i < sv.len() ==> (is_under(dp, (#[trigger] sv[i]).virtual_path) <==> (
            sv[i].virtual_parent == dp || exists|j: int|
                0 <= j < dv.len() && (#[trigger] dv[j]).virtual_parent == Some(dp) && is_under(
                    dv[j].virtual_path,
                    sv[i].virtual_path,
                ))),
{
    let wd = choose|w: int| 0 <= w < dv.len() && (#[trigger] dv[w]).virtual_path == dp;
    assert(dir_wf(dv[wd]));
    let pd = parts(dp);
    let ld = pd.len() as int;
    lemma_join_split(dp, PATH_SEPARATOR);
    assert forall|i: int|
        0 <= i < sv.len() implies (is_under(dp, (#[trigger] sv[i]).virtual_path) <==> (
    sv[i].virtual_parent == dp || exists|j: int|
        0 <= j < dv.len() && (#[trigger] dv[j]).virtual_parent == Some(dp) && is_under(
            dv[j].virtual_path,
            sv[i].virtual_path,
        ))) by {
        let s = sv[i];
        let pp = parts(s.virtual_path);
        let ls = pp.len() as int;
        assert(song_wf(s));
        lemma_split_pieces_sep_free(s.virtual_path, PATH_SEPARATOR);
        lemma_join_split(s.virtual_path, PATH_SEPARATOR);
        crate::vfs::lemma_under_iff(dp, s.virtual_path);
        if is_under(dp, s.virtual_path) {
            assert(pd.is_prefix_of(pp));
            if ld == ls {
                assert(pd =~~= pp);
                assert(dp == s.virtual_path);
                assert(false);
            } else if ld == ls - 1 {
                assert(pp.take(ls - 1) =~~= pd);
                assert(pp.drop_last() =~~= pd);
                assert(s.virtual_parent == parent_of(s.virtual_path));
                assert(parent_of(s.virtual_path) == dp);
            } else {
                assert(ld <= ls - 2);
                assert(has_dir(dv, prefix_path(pp, ls - 1))) by {
                    assert(has_dir(dv, s.virtual_parent));
                    assert(pp.take(ls - 1) =~~= pp.drop_last());
                    assert(s.virtual_parent == prefix_path(pp, ls - 1));
                }
                lemma_dir_chain(dv, pp, ld + 1, ls - 1);
                let wc = choose|w: int|
                    0 <= w < dv.len() && (#[trigger] dv[w]).virtual_path == prefix_path(
                        pp,
                        ld + 1,
                    );
                lemma_prefix_path_parts(pp, ld + 1);
                assert(dir_wf(dv[wc]));
                assert(parts(dv[wc].virtual_path).len() == ld + 1);
                assert(dv[wc].virtual_parent == Some(parent_of(dv[wc].virtual_path)));
                assert(parent_of(dv[wc].virtual_path) == prefix_path(pp, ld)) by {
                    lemma_prefix_path_parts(pp, ld);
                }
                assert(prefix_path(pp, ld) == dp) by {
                    assert(pp.take(ld) =~~= pd);
                }
                assert(is_under(dv[wc].virtual_path, s.virtual_path)) by {
                    crate::vfs::lemma_under_iff(dv[wc].virtual_path, s.virtual_path);
                    assert(parts(dv[wc].virtual_path) =~~= pp.take(ld + 1));
                    assert(pp.take(ld + 1).is_prefix_of(pp));
                }
            }
        }
        if s.virtual_parent == dp {
            assert(parent_of(s.virtual_path) == dp);
            lemma_parent_parts(s.virtual_path);
            assert(pd =~~= pp.drop_last());
            assert(pd.is_prefix_of(pp)) by {
                assert(pp.take(ls - 1) =~~= pp.drop_last());
            }
            assert(is_under(dp, s.virtual_path));
        }
        if exists|j: int|
            0 <= j < dv.len() && (#[trigger] dv[j]).virtual_parent == Some(dp) && is_under(
                dv[j].virtual_path,
                s.virtual_path,
            ) {
            let j = choose|j: int|
                0 <= j < dv.len() && (#[trigger] dv[j]).virtual_parent == Some(dp) && is_under(
                    dv[j].virtual_path,
                    s.virtual_path,
                );
            assert(dir_wf(dv[j]));
            let pc = parts(dv[j].virtual_path);
            assert(pc.len() >= 2) by {
                if pc.len() == 1 {
                    assert(dv[j].virtual_parent is None);
                }
            }
            assert(dp == parent_of(dv[j].virtual_path));
            lemma_parent_parts(dv[j].virtual_path);
            assert(pd =~~= pc.drop_last());
            crate::vfs::lemma_under_iff(dv[j].virtual_path, s.virtual_path);
            assert(pc.is_prefix_of(pp));
            assert(pd.is_prefix_of(pp)) by {
                assert(pd.len() <= pc.len() <= pp.len());
                assert(pp.take(pc.len() as int) =~~= pc);
                assert forall|t: int| 0 <= t < pd.len() implies pd[t] == pp.take(pd.len() as int)[t]
                    by {
                    assert(pd[t] == pc[t]);
                    assert(pc[t] == pp[t]);
                }
                assert(pp.take(pd.len() as int) =~~= pd);
            }
            assert(is_under(dp, s.virtual_path));
        }
    }
}

/// The collection index: the mount table, the committed songs and directory
/// nodes, and the state of the reindex lifecycle.
pub struct Index {
    pub vfs: Vfs,
    pub songs: Vec<Song>,
    pub dirs: Vec<Directory>,
    pub status: crate::status::IndexStatus,
}

/// One path lying under another makes their first components equal.
pub proof fn lemma_under_first_comp(a: Seq<char>, b: Seq<char>)
    requires
        is_under(a, b),
    ensures
        parts(b)[0] == parts(a)[0],
{
    crate::vfs::lemma_under_iff(a, b);
    lemma_split_len(a, PATH_SEPARATOR);
    lemma_split_len(b, PATH_SEPARATOR);
    assert(parts(a).is_prefix_of(parts(b)));
    assert(parts(b).take(parts(a).len() as int)[0] == parts(b)[0]);
}

/// Committing a walk into a well-formed store keeps it well-formed.
pub proof fn lemma_commit_wf(
    old_sv: Seq<SongV>,
    old_dv: Seq<DirectoryV>,
    cv: Seq<SongV>,
    msq: Seq<char>,
    ts: i64,
)
    requires
        store_wf(old_sv, old_dv),
        valid_mount_name(msq),
    ensures
        store_wf(
            old_sv.filter(|s: SongV| !is_under(msq, s.virtual_path)) + accept_songs(cv, msq, ts),
            old_dv.filter(|d: DirectoryV| !is_under(msq, d.virtual_path)) + dir_paths_for(
                accept_songs(cv, msq, ts),
            ).map_values(|p: Seq<char>| dir_for(p)),
        ),
{
    let ps = |s: SongV| !is_under(msq, s.virtual_path);
    let pd = |d: DirectoryV| !is_under(msq, d.virtual_path);
    let kept_sv = old_sv.filter(ps);
    let kept_dv = old_dv.filter(pd);
    let accv = accept_songs(cv, msq, ts);
    let dpv = dir_paths_for(accv);
    let fdir = |p: Seq<char>| dir_for(p);
    let ndv = dpv.map_values(fdir);
    let sv = kept_sv + accv;
    let dv = kept_dv + ndv;
    lemma_accept_props(cv, msq, ts);
    lemma_dir_paths_props(accv);
    lemma_filter_subset(old_sv, ps);
    lemma_filter_subset(old_dv, pd);
    // Per-element facts about each of the four parts.
    assert forall|u: int| 0 <= u < kept_sv.len() implies song_wf(#[trigger] kept_sv[u]) && parts(
        kept_sv[u].virtual_path,
    )[0] != msq by {
        old_sv.lemma_filter_pred(ps, u);
        assert(old_sv.contains(kept_sv[u]));
        let w = choose|w: int| 0 <= w < old_sv.len() && old_sv[w] == kept_sv[u];
        assert(song_wf(old_sv[w]));
        lemma_first_comp_under(msq, kept_sv[u].virtual_path);
    }
    assert forall|u: int| 0 <= u < kept_dv.len() implies dir_wf(#[trigger] kept_dv[u]) && parts(
        kept_dv[u].virtual_path,
    )[0] != msq by {
        old_dv.lemma_filter_pred(pd, u);
        assert(old_dv.contains(kept_dv[u]));
        let w = choose|w: int| 0 <= w < old_dv.len() && old_dv[w] == kept_dv[u];
        assert(dir_wf(old_dv[w]));
        lemma_first_comp_under(msq, kept_dv[u].virtual_path);
    }
    assert forall|u: int| 0 <= u < accv.len() implies is_under(
        msq,
        (#[trigger] accv[u]).virtual_path,
    ) by {
        lemma_first_comp_under(msq, accv[u].virtual_path);
    }
    assert forall|u: int| 0 <= u < ndv.len() implies dir_wf(#[trigger] ndv[u]) && ndv[u]
        == dir_for(dpv[u]) && parts(ndv[u].virtual_path)[0] == msq && (exists|sj: int, sk: int|
        0 <= sj < accv.len() && 1 <= sk <= parts(accv[sj].virtual_path).len() - 1
            && ndv[u].virtual_path == (#[trigger] prefix_path(parts(accv[sj].virtual_path), sk))
            && parts(ndv[u].virtual_path) == parts(accv[sj].virtual_path).take(sk)) by {
        assert(ndv[u] == fdir(dpv[u]));
        assert(dpv.contains(dpv[u]));
        let (sj, sk): (int, int) = choose|sj: int, sk: int|
            0 <= sj < accv.len() && 1 <= sk <= parts(accv[sj].virtual_path).len() - 1 && dpv[u]
                == (#[trigger] prefix_path(parts(accv[sj].virtual_path), sk));
        let spp = parts(accv[sj].virtual_path);
        lemma_split_pieces_sep_free(accv[sj].virtual_path, PATH_SEPARATOR);
        lemma_prefix_path_parts(spp, sk);
        assert(parts(dpv[u]) == spp.take(sk));
        assert(parts(dpv[u]).len() == sk);
        if sk >= 2 {
            assert(parent_of(dpv[u]) == prefix_path(spp, sk - 1));
        }
        assert(parts_valid(parts(dpv[u])));
        assert(dir_wf(dir_for(dpv[u])));
    }
    // Song well-formedness.
    assert forall|i: int| 0 <= i < sv.len() implies song_wf(#[trigger] sv[i]) by {
        if i < kept_sv.len() {
            assert(sv[i] == kept_sv[i]);
        } else {
            assert(sv[i] == accv[i - kept_sv.len()]);
        }
    }
    // No two songs on one chain.
    lemma_filter_preserves_pairwise(
        old_sv,
        ps,
        |a: SongV, b: SongV| is_under(a.virtual_path, b.virtual_path),
    );
    assert forall|i: int, j: int|
        0 <= i < sv.len() && 0 <= j < sv.len() && i != j implies !is_under(
        (#[trigger] sv[i]).virtual_path,
        (#[trigger] sv[j]).virtual_path,
    ) by {
        let nk = kept_sv.len() as int;
        if i < nk && j < nk {
            assert(sv[i] == kept_sv[i]);
            assert(sv[j] == kept_sv[j]);
        } else if i >= nk && j >= nk {
            assert(sv[i] == accv[i - nk]);
            assert(sv[j] == accv[j - nk]);
        } else if i < nk {
            assert(sv[i] == kept_sv[i]);
            assert(sv[j] == accv[j - nk]);
            if is_under(sv[i].virtual_path, sv[j].virtual_path) {
                lemma_under_first_comp(sv[i].virtual_path, sv[j].virtual_path);
                lemma_first_comp_under(msq, sv[j].virtual_path);
            }
        } else {
            assert(sv[i] == accv[i - nk]);
            assert(sv[j] == kept_sv[j]);
            if is_under(sv[i].virtual_path, sv[j].virtual_path) {
                lemma_under_first_comp(sv[i].virtual_path, sv[j].virtual_path);
                lemma_first_comp_under(msq, sv[i].virtual_path);
            }
        }
    }
    // Directory well-formedness.
    assert forall|i: int| 0 <= i < dv.len() implies dir_wf(#[trigger] dv[i]) by {
        if i < kept_dv.len() {
            assert(dv[i] == kept_dv[i]);
        } else {
            assert(dv[i] == ndv[i - kept_dv.len()]);
        }
    }
    // Directory paths unique.
    lemma_filter_preserves_pairwise(
        old_dv,
        pd,
        |a: DirectoryV, b: DirectoryV| a.virtual_path == b.virtual_path,
    );
    assert forall|i: int, j: int|
        0 <= i < dv.len() && 0 <= j < dv.len() && i != j implies (
    #[trigger] dv[i]).virtual_path != (#[trigger] dv[j]).virtual_path by {
        let nk = kept_dv.len() as int;
        if i < nk && j < nk {
            assert(dv[i] == kept_dv[i]);
            assert(dv[j] == kept_dv[j]);
        } else if i >= nk && j >= nk {
            assert(dv[i] == ndv[i - nk]);
            assert(dv[j] == ndv[j - nk]);
            assert(ndv[i - nk].virtual_path == dpv[i - nk]);
            assert(ndv[j - nk].virtual_path == dpv[j - nk]);
        } else if i < nk {
            assert(dv[i] == kept_dv[i]);
            assert(dv[j] == ndv[j - nk]);
        } else {
            assert(dv[i] == ndv[i - nk]);
            assert(dv[j] == kept_dv[j]);
        }
    }
    // No path both a song and a directory.
    assert forall|i: int, j: int|
        0 <= i < sv.len() && 0 <= j < dv.len() implies (#[trigger] sv[i]).virtual_path != (
    #[trigger] dv[j]).virtual_path by {
        let nks = kept_sv.len() as int;
        let nkd = kept_dv.len() as int;
        if i < nks && j < nkd {
            assert(sv[i] == kept_sv[i]);
            assert(dv[j] == kept_dv[j]);
            assert(old_sv.contains(kept_sv[i]));
            assert(old_dv.contains(kept_dv[j]));
            let wi = choose|w: int| 0 <= w < old_sv.len() && old_sv[w] == kept_sv[i];
            let wj = choose|w: int| 0 <= w < old_dv.len() && old_dv[w] == kept_dv[j];
            assert(old_sv[wi].virtual_path != old_dv[wj].virtual_path);
        } else if i < nks {
            assert(sv[i] == kept_sv[i]);
            assert(dv[j] == ndv[j - nkd]);
        } else if j < nkd {
            assert(sv[i] == accv[i - nks]);
            assert(dv[j] == kept_dv[j]);
        } else {
            assert(sv[i] == accv[i - nks]);
            assert(dv[j] == ndv[j - nkd]);
            if sv[i].virtual_path == dv[j].virtual_path {
                let (sj, sk): (int, int) = choose|sj: int, sk: int|
                    0 <= sj < accv.len() && 1 <= sk <= parts(accv[sj].virtual_path).len() - 1
                        && ndv[j - nkd].virtual_path == (#[trigger] prefix_path(
                        parts(accv[sj].virtual_path),
                        sk,
                    )) && parts(ndv[j - nkd].virtual_path) == parts(accv[sj].virtual_path).take(
                        sk,
                    );
                crate::vfs::lemma_under_iff(dv[j].virtual_path, accv[sj].virtual_path);
                assert(parts(dv[j].virtual_path).is_prefix_of(parts(accv[sj].virtual_path))) by {
                    assert(parts(accv[sj].virtual_path).take(sk).is_prefix_of(
                        parts(accv[sj].virtual_path),
                    ));
                }
                assert(is_under(dv[j].virtual_path, accv[sj].virtual_path));
                if i - nks == sj {
                    assert(parts(sv[i].virtual_path).len() == parts(accv[sj].virtual_path).len());
                    assert(parts(dv[j].virtual_path).len() == sk);
                } else {
                    assert(!is_under(accv[i - nks].virtual_path, accv[sj].virtual_path));
                }
            }
        }
    }
    // Every song's parent directory exists.
    assert forall|i: int| 0 <= i < sv.len() implies has_dir(dv, (#[trigger] sv[i]).virtual_parent)
        by {
        let nks = kept_sv.len() as int;
        if i < nks {
            assert(sv[i] == kept_sv[i]);
            assert(old_sv.contains(kept_sv[i]));
            let w = choose|w: int| 0 <= w < old_sv.len() && old_sv[w] == kept_sv[i];
            assert(has_dir(old_dv, old_sv[w].virtual_parent));
            let wd = choose|wd: int|
                0 <= wd < old_dv.len() && (#[trigger] old_dv[wd]).virtual_path == old_sv[
                    w
                ].virtual_parent;
            lemma_parent_parts(kept_sv[i].virtual_path);
            lemma_first_comp_under(msq, old_dv[wd].virtual_path);
            assert(pd(old_dv[wd]));
            old_dv.lemma_filter_contains(pd, wd);
            assert(kept_dv.contains(old_dv[wd]));
            let wk = choose|wk: int| 0 <= wk < kept_dv.len() && kept_dv[wk] == old_dv[wd];
            assert(dv[wk] == kept_dv[wk]);
            assert((#[trigger] dv[wk]).virtual_path == sv[i].virtual_parent);
        } else {
            let u = i - nks;
            assert(sv[i] == accv[u]);
            let spp = parts(accv[u].virtual_path);
            assert(accv[u].virtual_parent == parent_of(accv[u].virtual_path));
            assert(parent_of(accv[u].virtual_path) == prefix_path(spp, spp.len() - 1)) by {
                assert(spp.take(spp.len() - 1) =~~= spp.drop_last());
            }
            assert(dpv.contains(prefix_path(spp, spp.len() - 1)));
            let w = choose|w: int| 0 <= w < dpv.len() && dpv[w] == prefix_path(spp, spp.len() - 1);
            assert(ndv[w] == fdir(dpv[w]));
            assert(dv[kept_dv.len() + w] == ndv[w]);
            assert((#[trigger] dv[kept_dv.len() + w]).virtual_path == sv[i].virtual_parent);
        }
    }
    // Every deeper directory's parent exists.
    assert forall|i: int|
        0 <= i < dv.len() && parts((#[trigger] dv[i]).virtual_path).len() >= 2 implies has_dir(
        dv,
        parent_of(dv[i].virtual_path),
    ) by {
        let nkd = kept_dv.len() as int;
        if i < nkd {
            assert(dv[i] == kept_dv[i]);
            assert(old_dv.contains(kept_dv[i]));
            let w = choose|w: int| 0 <= w < old_dv.len() && old_dv[w] == kept_dv[i];
            assert(has_dir(old_dv, parent_of(old_dv[w].virtual_path)));
            let wd = choose|wd: int|
                0 <= wd < old_dv.len() && (#[trigger] old_dv[wd]).virtual_path == parent_of(
                    old_dv[w].virtual_path,
                );
            lemma_parent_parts(kept_dv[i].virtual_path);
            lemma_first_comp_under(msq, old_dv[wd].virtual_path);
            assert(pd(old_dv[wd]));
            old_dv.lemma_filter_contains(pd, wd);
            assert(kept_dv.contains(old_dv[wd]));
            let wk = choose|wk: int| 0 <= wk < kept_dv.len() && kept_dv[wk] == old_dv[wd];
            assert(dv[wk] == kept_dv[wk]);
            assert((#[trigger] dv[wk]).virtual_path == parent_of(dv[i].virtual_path));
        } else {
            let u = i - nkd;
            assert(dv[i] == ndv[u]);
            assert(ndv[u].virtual_path == dpv[u]);
            assert(dpv.contains(parent_of(dpv[u])));
            let w = choose|w: int| 0 <= w < dpv.len() && dpv[w] == parent_of(dpv[u]);
            assert(ndv[w] == fdir(dpv[w]));
            assert(dv[kept_dv.len() + w] == ndv[w]);
            assert((#[trigger] dv[kept_dv.len() + w]).virtual_path == parent_of(
                dv[i].virtual_path,
            ));
        }
    }
}

/// The invariant of the stored rows: entries are well-formed, no two song
/// paths lie on one chain, directory paths are unique, no path is both a
/// song and a directory, and every parent that should exist does.
pub open spec fn store_wf(sv: Seq<SongV>, dv: Seq<DirectoryV>) -> bool {
    &&& forall|i: int| 0 <= i < sv.len() ==> song_wf(#[trigger] sv[i])
    &&& forall|i: int, j: int|
        0 <= i < sv.len() && 0 <= j < sv.len() && i != j ==> !is_under(
            (#[trigger] sv[i]).virtual_path,
            (#[trigger] sv[j]).virtual_path,
        )
    &&& forall|i: int| 0 <= i < dv.len() ==> dir_wf(#[trigger] dv[i])
    &&& forall|i: int, j: int|
        0 <= i < dv.len() && 0 <= j < dv.len() && i != j ==> (#[trigger] dv[i]).virtual_path != (
        #[trigger] dv[j]).virtual_path
    &&& forall|i: int, j: int|
        0 <= i < sv.len() && 0 <= j < dv.len() ==> (#[trigger] sv[i]).virtual_path != (
        #[trigger] dv[j]).virtual_path
    &&& forall|i: int| 0 <= i < sv.len() ==> has_dir(dv, (#[trigger] sv[i]).virtual_parent)
    &&& forall|i: int|
        0 <= i < dv.len() && parts((#[trigger] dv[i]).virtual_path).len() >= 2 ==> has_dir(
            dv,
            parent_of(dv[i].virtual_path),
        )
}

impl Index {
    /// The invariant every constructor establishes and every mutation keeps.
    pub open spec fn wf(&self) -> bool {
        &&& self.vfs.wf()
        &&& store_wf(songs_view(self.songs@), dirs_view(self.dirs@))
    }

    /// An empty collection with an empty mount table.
    pub fn new() -> (r: Index)
        ensures
            r.wf(),
            songs_view(r.songs@) =~= Seq::<SongV>::empty(),
            dirs_view(r.dirs@) =~= Seq::<DirectoryV>::empty(),
            r.vfs.mounts_view() =~= Seq::<MountDirV>::empty(),
            r.status == crate::status::IndexStatus::Idle,
    {
        let r = Index {
            vfs: Vfs::new(),
            songs: Vec::new(),
            dirs: Vec::new(),
            status: crate::status::IndexStatus::new(),
        };
        proof {
            assert(songs_view(r.songs@) =~= Seq::<SongV>::empty());
            assert(dirs_view(r.dirs@) =~= Seq::<DirectoryV>::empty());
        }
        r
    }

    /// Request a reindex, fire-and-forget: the result says whether the
    /// caller must start a pass now; a request during a running pass is
    /// coalesced into exactly one follow-up pass. The stored rows are
    /// untouched, so queries keep answering from the last committed state.
    pub fn trigger_reindex(&mut self) -> (start_now: bool)
        ensures
            old(self).status == crate::status::IndexStatus::Idle ==> start_now
                && final(self).status == (crate::status::IndexStatus::Indexing {
                retrigger: false,
            }),
            (old(self).status matches crate::status::IndexStatus::Indexing { .. }) ==> !start_now
                && final(self).status == (crate::status::IndexStatus::Indexing {
                retrigger: true,
            }),
            final(self).vfs == old(self).vfs,
            final(self).songs == old(self).songs,
            final(self).dirs == old(self).dirs,
            final(self).wf() <== old(self).wf(),
    {
        self.status.trigger()
    }

    /// One level of the browsable tree. The empty path lists the mounts; a
    /// known directory lists its sub-directories then its songs; a song path
    /// has no children; any other path is unknown.
    pub fn browse(&self, virtual_path: &str) -> (r: Result<Vec<CollectionFile>, Error>)
        requires
            self.wf(),
        ensures
            r is Ok <==> (virtual_path@.len() == 0 || has_dir(dirs_view(self.dirs@), virtual_path@)
                || has_song(songs_view(self.songs@), virtual_path@)),
            virtual_path@.len() == 0 && r is Ok ==> cf_views(r->Ok_0@) == mounts_as_dirs(
                self.vfs.mounts_view(),
            ),
            virtual_path@.len() != 0 && has_dir(dirs_view(self.dirs@), virtual_path@) && r is Ok
                ==> cf_views(r->Ok_0@) == browse_entries(
                dirs_view(self.dirs@),
                songs_view(self.songs@),
                virtual_path@,
            ),
            virtual_path@.len() != 0 && !has_dir(dirs_view(self.dirs@), virtual_path@) && r is Ok
                ==> cf_views(r->Ok_0@) =~= Seq::<CollectionFileV>::empty(),
            r is Err ==> r->Err_0@ == crate::types::ErrorV::DirectoryNotFound(virtual_path@),
    {
        let ghost dv = dirs_view(self.dirs@);
        let ghost sv = songs_view(self.songs@);
        if virtual_path.unicode_len() == 0 {
            let mounts = self.vfs.mount_dirs();
            let mut out: Vec<CollectionFile> = Vec::new();
            let mut i: usize = 0;
            while i < mounts.len()
                invariant
                    i <= mounts@.len(),
                    mount_views(mounts@) =~= self.vfs.mounts_view(),
                    cf_views(out@) =~= mounts_as_dirs(mount_views(mounts@)).take(i as int),
                decreases mounts@.len() - i,
            {
                let d = Directory { virtual_path: mounts[i].name.clone(), virtual_parent: None };
                let ghost o0 = out@;
                out.push(CollectionFile::Directory(d));
                proof {
                    lemma_map_values_push(o0, CollectionFile::Directory(d), |c: CollectionFile| c@);
                    assert(cf_views(out@) =~= mounts_as_dirs(mount_views(mounts@)).take(
                        i as int + 1,
                    ));
                }
                i += 1;
            }
            proof {
                assert(mounts_as_dirs(mount_views(mounts@)).take(mounts@.len() as int)
                    =~= mounts_as_dirs(mount_views(mounts@)));
                assert(cf_views(out@) == mounts_as_dirs(self.vfs.mounts_view()));
            }
            return Ok(out);
        }
        let is_dir = self.contains_dir(virtual_path);
        if !is_dir {
            if self.contains_song(virtual_path) {
                let out: Vec<CollectionFile> = Vec::new();
                proof {
                    assert(cf_views(out@) =~= Seq::<CollectionFileV>::empty());
                }
                return Ok(out);
            }
            return Err(Error::DirectoryNotFound(virtual_path.to_owned()));
        }
        let mut out: Vec<CollectionFile> = Vec::new();
        let ghost fd = |d: DirectoryV| d.virtual_parent == Some(virtual_path@);
        let mut i: usize = 0;
        while i < self.dirs.len()
            invariant
                i <= self.dirs@.len(),
                dv == dirs_view(self.dirs@),
                fd == (|d: DirectoryV| d.virtual_parent == Some(virtual_path@)),
                cf_views(out@) =~= dv.take(i as int).filter(fd).map_values(
                    |d: DirectoryV| CollectionFileV::Directory(d),
                ),
            decreases self.dirs@.len() - i,
        {
            let d = &self.dirs[i];
            let child = match &d.virtual_parent {
                Some(p) => crate::strutil::eq_str(p.as_str(), virtual_path),
                None => false,
            };
            proof {
                lemma_filter_take_step(dv, i as int, fd);
                assert(dv[i as int] == self.dirs@[i as int]@);
            }
            if child {
                let ghost o0 = out@;
                let dc = self.dirs[i].clone();
                out.push(CollectionFile::Directory(dc));
                proof {
                    assert(fd(dv[i as int]));
                    lemma_map_values_push(o0, CollectionFile::Directory(dc), |c: CollectionFile| c@);
                    lemma_map_values_push(
                        dv.take(i as int).filter(fd),
                        dv[i as int],
                        |d: DirectoryV| CollectionFileV::Directory(d),
                    );
                    assert(cf_views(out@) =~= dv.take(i as int + 1).filter(fd).map_values(
                        |d: DirectoryV| CollectionFileV::Directory(d),
                    ));
                }
            } else {
                proof {
                    assert(!fd(dv[i as int]));
                    assert(dv.take(i as int + 1).filter(fd) == dv.take(i as int).filter(fd));
                }
            }
            i += 1;
        }
        proof {
            assert(dv.take(self.dirs@.len() as int) =~= dv);
        }
        let ghost fs = |s: SongV| s.virtual_parent == virtual_path@;
        let ghost dpart = dv.filter(fd).map_values(|d: DirectoryV| CollectionFileV::Directory(d));
        let mut i: usize = 0;
        while i < self.songs.len()
            invariant
                i <= self.songs@.len(),
                sv == songs_view(self.songs@),
                fs == (|s: SongV| s.virtual_parent == virtual_path@),
                dpart == dv.filter(fd).map_values(|d: DirectoryV| CollectionFileV::Directory(d)),
                fd == (|d: DirectoryV| d.virtual_parent == Some(virtual_path@)),
                dv == dirs_view(self.dirs@),
                cf_views(out@) =~= dpart + sv.take(i as int).filter(fs).map_values(
                    |s: SongV| CollectionFileV::Song(s),
                ),
            decreases self.songs@.len() - i,
        {
            let s = &self.songs[i];
            let child = crate::strutil::eq_str(s.virtual_parent.as_str(), virtual_path);
            proof {
                lemma_filter_take_step(sv, i as int, fs);
                assert(sv[i as int] == self.songs@[i as int]@);
            }
            if child {
                let ghost o0 = out@;
                let sc = self.songs[i].clone();
                out.push(CollectionFile::Song(sc));
                proof {
                    assert(fs(sv[i as int]));
                    lemma_map_values_push(o0, CollectionFile::Song(sc), |c: CollectionFile| c@);
                    lemma_map_values_push(
                        sv.take(i as int).filter(fs),
                        sv[i as int],
                        |s: SongV| CollectionFileV::Song(s),
                    );
                    assert(cf_views(out@) =~= dpart + sv.take(i as int + 1).filter(fs).map_values(
                        |s: SongV| CollectionFileV::Song(s),
                    ));
                }
            } else {
                proof {
                    assert(!fs(sv[i as int]));
                    assert(sv.take(i as int + 1).filter(fs) == sv.take(i as int).filter(fs));
                }
            }
            i += 1;
        }
        proof {
            assert(sv.take(self.songs@.len() as int) =~= sv);
            assert(cf_views(out@) == browse_entries(dv, sv, virtual_path@));
        }
        Ok(out)
    }

    /// Case-insensitive substring search over the collection: directories
    /// match on their virtual path; songs match on title, album, any artist
    /// or album artist, or their virtual path as fallback. The empty query
    /// matches everything.
    pub fn search(&self, query: &str) -> (r: Vec<CollectionFile>)
        ensures
            cf_views(r@) == search_entries(
                dirs_view(self.dirs@),
                songs_view(self.songs@),
                lower_of(query@),
            ),
    {
        let ghost dv = dirs_view(self.dirs@);
        let ghost sv = songs_view(self.songs@);
        let ql = crate::strutil::lowercase(query);
        let ghost qv = lower_of(query@);
        let ghost fd = |d: DirectoryV| dir_matches(qv, d);
        let ghost fs = |s: SongV| song_matches(qv, s);
        let mut out: Vec<CollectionFile> = Vec::new();
        let mut i: usize = 0;
        while i < self.dirs.len()
            invariant
                i <= self.dirs@.len(),
                dv == dirs_view(self.dirs@),
                ql@ == qv,
                fd == (|d: DirectoryV| dir_matches(qv, d)),
                cf_views(out@) =~= dv.take(i as int).filter(fd).map_values(
                    |d: DirectoryV| CollectionFileV::Directory(d),
                ),
            decreases self.dirs@.len() - i,
        {
            let hit = {
                let low = crate::strutil::lowercase(self.dirs[i].virtual_path.as_str());
                crate::strutil::str_contains(low.as_str(), ql.as_str())
            };
            proof {
                lemma_filter_take_step(dv, i as int, fd);
                assert(dv[i as int] == self.dirs@[i as int]@);
                assert(hit == fd(dv[i as int]));
            }
            if hit {
                let ghost o0 = out@;
                let dc = self.dirs[i].clone();
                out.push(CollectionFile::Directory(dc));
                proof {
                    lemma_map_values_push(o0, CollectionFile::Directory(dc), |c: CollectionFile| c@);
                    lemma_map_values_push(
                        dv.take(i as int).filter(fd),
                        dv[i as int],
                        |d: DirectoryV| CollectionFileV::Directory(d),
                    );
                    assert(cf_views(out@) =~= dv.take(i as int + 1).filter(fd).map_values(
                        |d: DirectoryV| CollectionFileV::Directory(d),
                    ));
                }
            }
            i += 1;
        }
        proof {
            assert(dv.take(self.dirs@.len() as int) =~= dv);
        }
        let ghost dpart = dv.filter(fd).map_values(|d: DirectoryV| CollectionFileV::Directory(d));
        let mut i: usize = 0;
        while i < self.songs.len()
            invariant
                i <= self.songs@.len(),
                sv == songs_view(self.songs@),
                ql@ == qv,
                fs == (|s: SongV| song_matches(qv, s)),
                fd == (|d: DirectoryV| dir_matches(qv, d)),
                dv == dirs_view(self.dirs@),
                dpart == dv.filter(fd).map_values(|d: DirectoryV| CollectionFileV::Directory(d)),
                cf_views(out@) =~= dpart + sv.take(i as int).filter(fs).map_values(
                    |s: SongV| CollectionFileV::Song(s),
                ),
            decreases self.songs@.len() - i,
        {
            let hit = song_matches_exec(&self.songs[i], ql.as_str());
            proof {
                lemma_filter_take_step(sv, i as int, fs);
                assert(sv[i as int] == self.songs@[i as int]@);
                assert(hit == fs(sv[i as int]));
            }
            if hit {
                let ghost o0 = out@;
                let sc = self.songs[i].clone();
                out.push(CollectionFile::Song(sc));
                proof {
                    lemma_map_values_push(o0, CollectionFile::Song(sc), |c: CollectionFile| c@);
                    lemma_map_values_push(
                        sv.take(i as int).filter(fs),
                        sv[i as int],
                        |s: SongV| CollectionFileV::Song(s),
                    );
                    assert(cf_views(out@) =~= dpart + sv.take(i as int + 1).filter(fs).map_values(
                        |s: SongV| CollectionFileV::Song(s),
                    ));
                }
            }
            i += 1;
        }
        proof {
            assert(sv.take(self.songs@.len() as int) =~= sv);
            assert(cf_views(out@) == search_entries(dv, sv, qv));
        }
        out
    }

    /// The derived album grouping for one album name.
    fn build_album(&self, name: &str) -> (a: Album)
        ensures
            a@ == album_of(songs_view(self.songs@), name@),
    {
        let ghost sv = songs_view(self.songs@);
        let ghost fa = |s: SongV| s.album == Some(name@);
        let mut songs: Vec<Song> = Vec::new();
        let mut i: usize = 0;
        while i < self.songs.len()
            invariant
                i <= self.songs@.len(),
                sv == songs_view(self.songs@),
                fa == (|s: SongV| s.album == Some(name@)),
                songs_view(songs@) =~= sv.take(i as int).filter(fa),
            decreases self.songs@.len() - i,
        {
            let hit = match &self.songs[i].album {
                Some(x) => crate::strutil::eq_str(x.as_str(), name),
                None => false,
            };
            proof {
                lemma_filter_take_step(sv, i as int, fa);
                assert(sv[i as int] == self.songs@[i as int]@);
                assert(hit == fa(sv[i as int]));
            }
            if hit {
                let ghost o0 = songs@;
                let sc = self.songs[i].clone();
                songs.push(sc);
                proof {
                    lemma_map_values_push(o0, sc, |s: Song| s@);
                }
            }
            i += 1;
        }
        proof {
            assert(sv.take(self.songs@.len() as int) =~= sv);
        }
        let ghost asv = album_songs(sv, name@);
        proof {
            assert(songs_view(songs@) == asv);
        }
        let artwork = first_artwork_exec(&songs);
        let year = if songs.len() > 0 {
            songs[0].year
        } else {
            None
        };
        proof {
            if songs@.len() > 0 {
                assert(asv[0] == songs@[0]@);
            }
        }
        let mut date: i64 = 0;
        let mut i: usize = 0;
        while i < songs.len()
            invariant
                i <= songs@.len(),
                songs_view(songs@) == asv,
                date == min_date(asv.take(i as int)),
            decreases songs@.len() - i,
        {
            proof {
                lemma_min_date_take_step(asv, i as int);
                assert(asv[i as int] == songs@[i as int]@);
            }
            let d = songs[i].date_added;
            if i == 0 {
                date = d;
            } else if d < date {
                date = d;
            }
            i += 1;
        }
        let mut artists: Vec<String> = Vec::new();
        let mut i: usize = 0;
        while i < songs.len()
            invariant
                i <= songs@.len(),
                songs_view(songs@) == asv,
                views_of(artists@) == album_artist_list(asv.take(i as int)),
            decreases songs@.len() - i,
        {
            proof {
                lemma_artists_take_step(asv, i as int);
                assert(asv[i as int] == songs@[i as int]@);
            }
            let ghost xs = contributors(asv[i as int]);
            let vals = if songs[i].album_artists.0.len() > 0 {
                &songs[i].album_artists.0
            } else {
                &songs[i].artists.0
            };
            proof {
                assert(views_of(vals@) == xs);
            }
            let nv = vals.len();
            let mut k: usize = 0;
            while k < nv
                invariant
                    k <= nv,
                    nv == vals@.len(),
                    views_of(vals@) == xs,
                    views_of(artists@) == merge_names(
                        album_artist_list(asv.take(i as int)),
                        xs,
                        k as int,
                    ),
                decreases nv - k,
            {
                proof {
                    assert(xs[k as int] == vals@[k as int]@);
                }
                if !contains_path(&artists, vals[k].as_str()) {
                    let ghost a0 = artists@;
                    let nm = vals[k].clone();
                    artists.push(nm);
                    proof {
                        lemma_map_values_push(a0, nm, |t: String| t@);
                    }
                }
                k += 1;
            }
            i += 1;
        }
        proof {
            assert(asv.take(songs@.len() as int) =~= asv);
        }
        let a = Album {
            name: Some(name.to_owned()),
            artwork,
            artists,
            year,
            date_added: date,
            songs,
        };
        proof {
            assert(a@ == album_of(sv, name@));
        }
        a
    }

    /// Every derived album of the collection, one per distinct album name,
    /// in order of first appearance.
    pub fn albums(&self) -> (r: Vec<Album>)
        ensures
            r@.map_values(|a: Album| a@) == albums_of(songs_view(self.songs@)),
    {
        let ghost sv = songs_view(self.songs@);
        let mut names: Vec<String> = Vec::new();
        let mut i: usize = 0;
        while i < self.songs.len()
            invariant
                i <= self.songs@.len(),
                sv == songs_view(self.songs@),
                views_of(names@) == album_name_list(sv.take(i as int)),
            decreases self.songs@.len() - i,
        {
            proof {
                lemma_names_take_step(sv, i as int);
                assert(sv[i as int] == self.songs@[i as int]@);
            }
            match &self.songs[i].album {
                Some(n) => {
                    if !contains_path(&names, n.as_str()) {
                        let ghost n0 = names@;
                        let nm = n.clone();
                        names.push(nm);
                        proof {
                            lemma_map_values_push(n0, nm, |t: String| t@);
                        }
                    }
                },
                None => {},
            }
            i += 1;
        }
        proof {
            assert(sv.take(self.songs@.len() as int) =~= sv);
        }
        let ghost nlist = album_name_list(sv);
        let mut out: Vec<Album> = Vec::new();
        let mut t: usize = 0;
        while t < names.len()
            invariant
                t <= names@.len(),
                sv == songs_view(self.songs@),
                views_of(names@) == nlist,
                nlist == album_name_list(sv),
                out@.map_values(|a: Album| a@) =~= albums_of(sv).take(t as int),
            decreases names@.len() - t,
        {
            let a = self.build_album(names[t].as_str());
            let ghost o0 = out@;
            out.push(a);
            proof {
                assert(names@[t as int]@ == nlist[t as int]);
                assert(a@ == album_of(sv, nlist[t as int]));
                assert(albums_of(sv)[t as int] == album_of(sv, nlist[t as int]));
                lemma_map_values_push(o0, a, |x: Album| x@);
                assert(albums_of(sv).take(t as int + 1) =~= albums_of(sv).take(t as int).push(
                    albums_of(sv)[t as int],
                ));
            }
            t += 1;
        }
        proof {
            assert(albums_of(sv).take(nlist.len() as int) =~= albums_of(sv));
        }
        out
    }

    /// Every derived artist grouping: one per distinct contributing artist
    /// name, with the albums that credit the artist.
    pub fn artists(&self) -> (r: Vec<Artist>)
        ensures
            r@.map_values(|a: Artist| a@) == artists_of(albums_of(songs_view(self.songs@))),
    {
        let ghost sv = songs_view(self.songs@);
        let ghost alls = albums_of(sv);
        let albums = self.albums();
        proof {
            assert(albums@.map_values(|a: Album| a@) == alls);
        }
        let mut names: Vec<String> = Vec::new();
        let mut i: usize = 0;
        while i < albums.len()
            invariant
                i <= albums@.len(),
                albums@.map_values(|a: Album| a@) == alls,
                views_of(names@) == artist_name_list(alls.take(i as int)),
            decreases albums@.len() - i,
        {
            proof {
                lemma_artist_names_take_step(alls, i as int);
                assert(alls[i as int] == albums@[i as int]@);
            }
            let ghost xs = alls[i as int].artists;
            let vals = &albums[i].artists;
            proof {
                assert(views_of(vals@) == xs);
            }
            let nv = vals.len();
            let mut k: usize = 0;
            while k < nv
                invariant
                    k <= nv,
                    nv == vals@.len(),
                    views_of(vals@) == xs,
                    views_of(names@) == merge_names(
                        artist_name_list(alls.take(i as int)),
                        xs,
                        k as int,
                    ),
                decreases nv - k,
            {
                proof {
                    assert(xs[k as int] == vals@[k as int]@);
                }
                if !contains_path(&names, vals[k].as_str()) {
                    let ghost n0 = names@;
                    let nm = vals[k].clone();
                    names.push(nm);
                    proof {
                        lemma_map_values_push(n0, nm, |t: String| t@);
                    }
                }
                k += 1;
            }
            i += 1;
        }
        proof {
            assert(alls.take(albums@.len() as int) =~= alls);
        }
        let ghost nlist = artist_name_list(alls);
        let mut out: Vec<Artist> = Vec::new();
        let mut t: usize = 0;
        while t < names.len()
            invariant
                t <= names@.len(),
                albums@.map_values(|a: Album| a@) == alls,
                views_of(names@) == nlist,
                nlist == artist_name_list(alls),
                alls == albums_of(songs_view(self.songs@)),
                out@.map_values(|a: Artist| a@) =~= artists_of(alls).take(t as int),
            decreases names@.len() - t,
        {
            let ghost fc = |a: AlbumV| a.artists.contains(nlist[t as int]);
            let mut credited: Vec<Album> = Vec::new();
            let mut i: usize = 0;
            while i < albums.len()
                invariant
                    i <= albums@.len(),
                    t < names@.len(),
                    albums@.map_values(|a: Album| a@) == alls,
                    views_of(names@) == nlist,
                    fc == (|a: AlbumV| a.artists.contains(nlist[t as int])),
                    credited@.map_values(|a: Album| a@) =~= alls.take(i as int).filter(fc),
                decreases albums@.len() - i,
            {
                let hit = album_credits(&albums[i], names[t].as_str());
                proof {
                    lemma_filter_take_step(alls, i as int, fc);
                    assert(alls[i as int] == albums@[i as int]@);
                    assert(names@[t as int]@ == nlist[t as int]);
                    assert(hit == fc(alls[i as int]));
                }
                if hit {
                    let ghost c0 = credited@;
                    let ac = albums[i].clone();
                    credited.push(ac);
                    proof {
                        lemma_map_values_push(c0, ac, |x: Album| x@);
                    }
                }
                i += 1;
            }
            proof {
                assert(alls.take(albums@.len() as int) =~= alls);
            }
            let a = Artist { name: Some(names[t].clone()), albums: credited };
            let ghost o0 = out@;
            out.push(a);
            proof {
                assert(a@ == artist_of(alls, nlist[t as int]));
                assert(artists_of(alls)[t as int] == artist_of(alls, nlist[t as int]));
                lemma_map_values_push(o0, a, |x: Artist| x@);
                assert(artists_of(alls).take(t as int + 1) =~= artists_of(alls).take(
                    t as int,
                ).push(artists_of(alls)[t as int]));
            }
            t += 1;
        }
        proof {
            assert(artists_of(alls).take(nlist.len() as int) =~= artists_of(alls));
        }
        out
    }

    /// Up to `n` derived albums, drawn by a pseudo-random walk from the
    /// caller's seed: each returned album is an album of the collection, and
    /// as many come back as the collection and `n` allow.
    pub fn get_random_albums(&self, seed: u64, n: usize) -> (r: Vec<Album>)
        ensures
            r@.len() == if n <= albums_of(songs_view(self.songs@)).len() {
                n as int
            } else {
                albums_of(songs_view(self.songs@)).len() as int
            },
            forall|i: int|
                0 <= i < r@.len() ==> albums_of(songs_view(self.songs@)).contains(
                    #[trigger] r@[i]@,
                ),
    {
        let ghost sv = songs_view(self.songs@);
        let ghost alls = albums_of(sv);
        let mut pool = self.albums();
        let ghost total = pool@.len() as int;
        proof {
            assert(total == alls.len());
            assert forall|i: int| 0 <= i < pool@.len() implies alls.contains(#[trigger] pool@[i]@)
                by {
                assert(pool@.map_values(|a: Album| a@)[i] == pool@[i]@);
            }
        }
        let mut out: Vec<Album> = Vec::new();
        let mut s = seed;
        while out.len() < n && pool.len() > 0
            invariant
                alls == albums_of(songs_view(self.songs@)),
                out@.len() + pool@.len() == alls.len(),
                out@.len() <= n,
                forall|i: int| 0 <= i < pool@.len() ==> alls.contains(#[trigger] pool@[i]@),
                forall|i: int| 0 <= i < out@.len() ==> alls.contains(#[trigger] out@[i]@),
            decreases pool@.len(),
        {
            let idx = (s % pool.len() as u64) as usize;
            let ghost p0 = pool@;
            let a = pool.remove(idx);
            proof {
                assert(a == p0[idx as int]);
                assert(alls.contains(a@));
                assert forall|i: int| 0 <= i < pool@.len() implies alls.contains(
                    #[trigger] pool@[i]@,
                ) by {
                    if i < idx {
                        assert(pool@[i] == p0[i]);
                    } else {
                        assert(pool@[i] == p0[i + 1]);
                    }
                }
            }
            out.push(a);
            s = s.wrapping_mul(6364136223846793005).wrapping_add(1442695040888963407);
        }
        out
    }

    /// Up to `n` derived albums, newest first by insertion time.
    pub fn get_recent_albums(&self, n: usize) -> (r: Vec<Album>)
        ensures
            r@.len() == if n <= albums_of(songs_view(self.songs@)).len() {
                n as int
            } else {
                albums_of(songs_view(self.songs@)).len() as int
            },
            forall|i: int|
                0 <= i < r@.len() ==> albums_of(songs_view(self.songs@)).contains(
                    #[trigger] r@[i]@,
                ),
            forall|i: int, j: int|
                0 <= i < j < r@.len() ==> (#[trigger] r@[i])@.date_added >= (
                #[trigger] r@[j])@.date_added,
    {
        let ghost sv = songs_view(self.songs@);
        let ghost alls = albums_of(sv);
        let mut pool = self.albums();
        proof {
            assert forall|i: int| 0 <= i < pool@.len() implies alls.contains(#[trigger] pool@[i]@)
                by {
                assert(pool@.map_values(|a: Album| a@)[i] == pool@[i]@);
            }
        }
        let mut out: Vec<Album> = Vec::new();
        while out.len() < n && pool.len() > 0
            invariant
                alls == albums_of(songs_view(self.songs@)),
                out@.len() + pool@.len() == alls.len(),
                out@.len() <= n,
                forall|i: int| 0 <= i < pool@.len() ==> alls.contains(#[trigger] pool@[i]@),
                forall|i: int| 0 <= i < out@.len() ==> alls.contains(#[trigger] out@[i]@),
                forall|i: int, j: int|
                    0 <= i < j < out@.len() ==> (#[trigger] out@[i])@.date_added >= (
                    #[trigger] out@[j])@.date_added,
                forall|i: int, j: int|
                    0 <= i < out@.len() && 0 <= j < pool@.len() ==> (
                    #[trigger] out@[i])@.date_added >= (#[trigger] pool@[j])@.date_added,
            decreases pool@.len(),
        {
            let mut best: usize = 0;
            let mut k: usize = 1;
            while k < pool.len()
                invariant
                    best < k <= pool@.len(),
                    pool@.len() > 0,
                    forall|i: int|
                        0 <= i < k ==> (#[trigger] pool@[i])@.date_added
                            <= pool@[best as int]@.date_added,
                decreases pool@.len() - k,
            {
                if pool[k].date_added > pool[best].date_added {
                    best = k;
                }
                k += 1;
            }
            let ghost p0 = pool@;
            let a = pool.remove(best);
            proof {
                assert(a == p0[best as int]);
                assert forall|i: int| 0 <= i < pool@.len() implies alls.contains(
                    #[trigger] pool@[i]@,
                ) && a@.date_added >= (#[trigger] pool@[i])@.date_added by {
                    if i < best {
                        assert(pool@[i] == p0[i]);
                    } else {
                        assert(pool@[i] == p0[i + 1]);
                    }
                }
            }
            out.push(a);
        }
        out
    }

    /// Whether some stored directory has this virtual path.
    fn contains_dir(&self, virtual_path: &str) -> (r: bool)
        ensures
            r == has_dir(dirs_view(self.dirs@), virtual_path@),
    {
        let ghost dv = dirs_view(self.dirs@);
        let mut i: usize = 0;
        while i < self.dirs.len()
            invariant
                i <= self.dirs@.len(),
                dv == dirs_view(self.dirs@),
                forall|k: int| 0 <= k < i ==> (#[trigger] dv[k]).virtual_path != virtual_path@,
            decreases self.dirs@.len() - i,
        {
            if crate::strutil::eq_str(self.dirs[i].virtual_path.as_str(), virtual_path) {
                proof {
                    assert(dv[i as int].virtual_path == virtual_path@);
                }
                return true;
            }
            i += 1;
        }
        false
    }

    /// Whether some stored song has this virtual path.
    fn contains_song(&self, virtual_path: &str) -> (r: bool)
        ensures
            r == has_song(songs_view(self.songs@), virtual_path@),
    {
        let ghost sv = songs_view(self.songs@);
        let mut i: usize = 0;
        while i < self.songs.len()
            invariant
                i <= self.songs@.len(),
                sv == songs_view(self.songs@),
                forall|k: int| 0 <= k < i ==> (#[trigger] sv[k]).virtual_path != virtual_path@,
            decreases self.songs@.len() - i,
        {
            if crate::strutil::eq_str(self.songs[i].virtual_path.as_str(), virtual_path) {
                proof {
                    assert(sv[i as int].virtual_path == virtual_path@);
                }
                return true;
            }
            i += 1;
        }
        false
    }

    /// Replace everything stored under one mount with the entries of a fresh
    /// walk of it, leaving every other mount untouched. An entry whose path
    /// is malformed, outside the mount, or on the chain of an earlier entry
    /// is skipped, not fatal; the recorded parent is recomputed and the
    /// insertion timestamp is stamped on. Directory nodes are derived anew as
    /// the prefixes of the accepted paths.
    pub fn commit_mount(&mut self, mount: &str, candidates: Vec<Song>, timestamp: i64) -> (r:
        Result<(), Error>)
        requires
            old(self).wf(),
        ensures
            final(self).wf(),
            r is Ok <==> valid_mount_name(mount@),
            r is Err ==> *final(self) == *old(self),
            r is Err ==> r->Err_0@ == crate::types::ErrorV::InvalidPath(mount@),
            r is Ok ==> songs_view(final(self).songs@) == songs_view(old(self).songs@).filter(
                |s: SongV| !is_under(mount@, s.virtual_path),
            ) + accept_songs(songs_view(candidates@), mount@, timestamp),
            r is Ok ==> dirs_view(final(self).dirs@) == dirs_view(old(self).dirs@).filter(
                |d: DirectoryV| !is_under(mount@, d.virtual_path),
            ) + dir_paths_for(accept_songs(songs_view(candidates@), mount@, timestamp)).map_values(
                |p: Seq<char>| dir_for(p),
            ),
            final(self).vfs == old(self).vfs,
    {
        if mount.unicode_len() == 0 || !crate::vfs::check_sep_free(mount)
            || !crate::vfs::check_component(mount) {
            return Err(Error::InvalidPath(mount.to_owned()));
        }
        let ghost msq = mount@;
        let ghost cv = songs_view(candidates@);
        let ghost old_sv = songs_view(self.songs@);
        let ghost old_dv = dirs_view(self.dirs@);
        proof {
            assert(valid_mount_name(msq));
        }
        let mut accepted: Vec<Song> = Vec::new();
        let mut i: usize = 0;
        while i < candidates.len()
            invariant
                i <= candidates@.len(),
                cv == songs_view(candidates@),
                msq == mount@,
                valid_mount_name(msq),
                songs_view(accepted@) == accept_songs(cv.take(i as int), msq, timestamp),
            decreases candidates@.len() - i,
        {
            proof {
                lemma_accept_take_step(cv, i as int, msq, timestamp);
                assert(cv[i as int] == candidates@[i as int]@);
            }
            let ok = check_song_ok(&candidates[i], mount);
            if ok {
                let clash = check_conflicts(&accepted, candidates[i].virtual_path.as_str());
                if !clash {
                    let parent = parent_string(candidates[i].virtual_path.as_str());
                    let sc = Song {
                        path: candidates[i].path.clone(),
                        virtual_path: candidates[i].virtual_path.clone(),
                        virtual_parent: parent,
                        track_number: candidates[i].track_number,
                        disc_number: candidates[i].disc_number,
                        title: crate::types::clone_opt_string(&candidates[i].title),
                        artists: candidates[i].artists.clone(),
                        album_artists: candidates[i].album_artists.clone(),
                        year: candidates[i].year,
                        album: crate::types::clone_opt_string(&candidates[i].album),
                        artwork: crate::types::clone_opt_string(&candidates[i].artwork),
                        duration: candidates[i].duration,
                        lyricists: candidates[i].lyricists.clone(),
                        composers: candidates[i].composers.clone(),
                        genres: candidates[i].genres.clone(),
                        labels: candidates[i].labels.clone(),
                        date_added: timestamp,
                    };
                    let ghost a0 = accepted@;
                    proof {
                        assert(sc@ == stamp_song(cv[i as int], timestamp));
                    }
                    accepted.push(sc);
                    proof {
                        lemma_map_values_push(a0, sc, |s: Song| s@);
                    }
                }
            }
            i += 1;
        }
        proof {
            assert(cv.take(candidates@.len() as int) =~= cv);
        }
        let ghost accv = accept_songs(cv, msq, timestamp);
        proof {
            lemma_accept_props(cv, msq, timestamp);
        }
        let mut dir_paths: Vec<String> = Vec::new();
        let mut j: usize = 0;
        while j < accepted.len()
            invariant
                j <= accepted@.len(),
                accv == accept_songs(cv, msq, timestamp),
                songs_view(accepted@) == accv,
                forall|t: int| 0 <= t < accv.len() ==> song_wf(#[trigger] accv[t]),
                views_of(dir_paths@) == dir_paths_for(accv.take(j as int)),
            decreases accepted@.len() - j,
        {
            let comps = split_string(accepted[j].virtual_path.as_str(), PATH_SEPARATOR);
            let ghost pp = parts(accv[j as int].virtual_path);
            proof {
                lemma_dir_paths_take_step(accv, j as int);
                assert(accv[j as int] == accepted@[j as int]@);
                assert(views_of(comps@) =~~= pp);
                lemma_split_pieces_sep_free(accv[j as int].virtual_path, PATH_SEPARATOR);
            }
            let mut prefix = String::new();
            let nc = comps.len();
            let mut k: usize = 0;
            while k < nc - 1
                invariant
                    k <= nc - 1,
                    nc == comps@.len(),
                    nc == pp.len(),
                    nc >= 2,
                    views_of(comps@) =~~= pp,
                    parts_valid(pp),
                    forall|t: int|
                        0 <= t < pp.len() ==> crate::strutil::sep_free(
                            #[trigger] pp[t],
                            PATH_SEPARATOR,
                        ),
                    prefix@ == if k == 0 {
                        Seq::<char>::empty()
                    } else {
                        prefix_path(pp, k as int)
                    },
                    views_of(dir_paths@) == add_prefixes(
                        dir_paths_for(accv.take(j as int)),
                        pp,
                        k as int,
                    ),
                decreases nc - 1 - k,
            {
                if k > 0 {
                    prefix.append("/");
                }
                prefix.append(comps[k].as_str());
                proof {
                    reveal_strlit("/");
                    assert("/"@ =~= seq![PATH_SEPARATOR]);
                    if k == 0 {
                        assert(pp.take(1) =~~= seq![pp[0]]);
                        assert(join_with(pp.take(1), PATH_SEPARATOR) == pp[0]);
                        assert(prefix@ =~= prefix_path(pp, 1));
                    } else {
                        assert(pp.take(k as int + 1) =~~= pp.take(k as int).push(pp[k as int]));
                        lemma_join_push(pp.take(k as int), pp[k as int], PATH_SEPARATOR);
                        assert(prefix@ =~= prefix_path(pp, k as int + 1));
                    }
                }
                let present = contains_path(&dir_paths, prefix.as_str());
                if !present {
                    let ghost d0 = dir_paths@;
                    dir_paths.push(prefix.clone());
                    proof {
                        lemma_map_values_push(d0, prefix, |t: String| t@);
                        assert(views_of(dir_paths@) =~= views_of(d0).push(prefix@));
                    }
                }
                proof {
                    assert(views_of(dir_paths@) =~~= add_prefixes(
                        dir_paths_for(accv.take(j as int)),
                        pp,
                        k as int + 1,
                    ));
                }
                k += 1;
            }
            proof {
                assert(views_of(dir_paths@) == dir_paths_for(accv.take(j as int + 1)));
            }
            j += 1;
        }
        proof {
            assert(accv.take(accepted@.len() as int) =~= accv);
        }
        let ghost dpv = dir_paths_for(accv);
        proof {
            lemma_dir_paths_props(accv);
            assert forall|t: int| 0 <= t < dpv.len() implies parts_valid(parts(#[trigger] dpv[t]))
                && parts(dpv[t]).len() >= 1 && parts(dpv[t])[0] == msq by {
                assert(dpv.contains(dpv[t]));
                let (sj, sk): (int, int) = choose|sj: int, sk: int|
                    0 <= sj < accv.len() && 1 <= sk <= parts(accv[sj].virtual_path).len() - 1
                        && dpv[t] == (#[trigger] prefix_path(parts(accv[sj].virtual_path), sk));
                let spp = parts(accv[sj].virtual_path);
                lemma_split_pieces_sep_free(accv[sj].virtual_path, PATH_SEPARATOR);
                lemma_prefix_path_parts(spp, sk);
                assert(parts(dpv[t]) == spp.take(sk));
            }
        }
        let mut new_dirs: Vec<Directory> = Vec::new();
        let mut t: usize = 0;
        while t < dir_paths.len()
            invariant
                t <= dir_paths@.len(),
                dpv == views_of(dir_paths@),
                forall|u: int|
                    0 <= u < dpv.len() ==> parts_valid(parts(#[trigger] dpv[u])) && parts(
                        dpv[u],
                    ).len() >= 1,
                dirs_view(new_dirs@) == dpv.take(t as int).map_values(|p: Seq<char>| dir_for(p)),
            decreases dir_paths@.len() - t,
        {
            let comps = split_string(dir_paths[t].as_str(), PATH_SEPARATOR);
            proof {
                assert(dpv[t as int] == dir_paths@[t as int]@);
                assert(views_of(comps@) =~~= parts(dpv[t as int]));
            }
            let d = if comps.len() == 1 {
                Directory { virtual_path: dir_paths[t].clone(), virtual_parent: None }
            } else {
                let parent = parent_string(dir_paths[t].as_str());
                Directory {
                    virtual_path: dir_paths[t].clone(),
                    virtual_parent: Some(parent),
                }
            };
            proof {
                assert(d@ == dir_for(dpv[t as int]));
            }
            let ghost n0 = new_dirs@;
            new_dirs.push(d);
            proof {
                lemma_map_values_push(n0, d, |x: Directory| x@);
                lemma_map_values_push(
                    dpv.take(t as int),
                    dpv[t as int],
                    |p: Seq<char>| dir_for(p),
                );
                assert(dpv.take(t as int + 1) =~~= dpv.take(t as int).push(dpv[t as int]));
                assert(dirs_view(new_dirs@) =~= dpv.take(t as int + 1).map_values(
                    |p: Seq<char>| dir_for(p),
                ));
            }
            t += 1;
        }
        proof {
            assert(dpv.take(dir_paths@.len() as int) =~= dpv);
        }
        let ghost ps = |s: SongV| !is_under(msq, s.virtual_path);
        let mut new_songs: Vec<Song> = Vec::new();
        let mut t: usize = 0;
        while t < self.songs.len()
            invariant
                t <= self.songs@.len(),
                old_sv == songs_view(self.songs@),
                msq == mount@,
                ps == (|s: SongV| !is_under(msq, s.virtual_path)),
                songs_view(new_songs@) == old_sv.take(t as int).filter(ps),
            decreases self.songs@.len() - t,
        {
            let keep = !under_root(self.songs[t].virtual_path.as_str(), mount);
            proof {
                lemma_filter_take_step(old_sv, t as int, ps);
                assert(old_sv[t as int] == self.songs@[t as int]@);
            }
            if keep {
                let ghost n0 = new_songs@;
                let sc = self.songs[t].clone();
                new_songs.push(sc);
                proof {
                    assert(ps(old_sv[t as int]));
                    lemma_map_values_push(n0, sc, |s: Song| s@);
                    assert(songs_view(new_songs@) =~= old_sv.take(t as int + 1).filter(ps));
                }
            } else {
                proof {
                    assert(!ps(old_sv[t as int]));
                }
            }
            t += 1;
        }
        let ghost pd = |d: DirectoryV| !is_under(msq, d.virtual_path);
        let mut kept_dirs: Vec<Directory> = Vec::new();
        let mut t: usize = 0;
        while t < self.dirs.len()
            invariant
                t <= self.dirs@.len(),
                old_dv == dirs_view(self.dirs@),
                msq == mount@,
                pd == (|d: DirectoryV| !is_under(msq, d.virtual_path)),
                dirs_view(kept_dirs@) == old_dv.take(t as int).filter(pd),
            decreases self.dirs@.len() - t,
        {
            let keep = !under_root(self.dirs[t].virtual_path.as_str(), mount);
            proof {
                lemma_filter_take_step(old_dv, t as int, pd);
                assert(old_dv[t as int] == self.dirs@[t as int]@);
            }
            if keep {
                let ghost n0 = kept_dirs@;
                let dc = self.dirs[t].clone();
                kept_dirs.push(dc);
                proof {
                    assert(pd(old_dv[t as int]));
                    lemma_map_values_push(n0, dc, |d: Directory| d@);
                    assert(dirs_view(kept_dirs@) =~= old_dv.take(t as int + 1).filter(pd));
                }
            } else {
                proof {
                    assert(!pd(old_dv[t as int]));
                }
            }
            t += 1;
        }
        proof {
            assert(old_sv.take(self.songs@.len() as int) =~= old_sv);
            assert(old_dv.take(self.dirs@.len() as int) =~= old_dv);
        }
        let ghost kept_sv = old_sv.filter(ps);
        let ghost kept_dv = old_dv.filter(pd);
        let ghost ka = new_songs@;
        let ghost kd = kept_dirs@;
        let ghost acc0 = accepted@;
        let ghost nd0 = new_dirs@;
        new_songs.append(&mut accepted);
        kept_dirs.append(&mut new_dirs);
        proof {
            assert(songs_view(new_songs@) =~= kept_sv + accv) by {
                assert(new_songs@ == ka + acc0);
                assert forall|u: int| 0 <= u < new_songs@.len() implies songs_view(
                    new_songs@,
                )[u] == (kept_sv + accv)[u] by {
                    if u < ka.len() {
                        assert(new_songs@[u] == ka[u]);
                        assert(songs_view(ka)[u] == ka[u]@);
                    } else {
                        assert(new_songs@[u] == acc0[u - ka.len()]);
                        assert(songs_view(acc0)[u - ka.len()] == acc0[u - ka.len()]@);
                    }
                }
            }
            assert(dirs_view(kept_dirs@) =~= kept_dv + dpv.map_values(|p: Seq<char>| dir_for(p)))
                by {
                assert(kept_dirs@ == kd + nd0);
                assert forall|u: int| 0 <= u < kept_dirs@.len() implies dirs_view(
                    kept_dirs@,
                )[u] == (kept_dv + dpv.map_values(|p: Seq<char>| dir_for(p)))[u] by {
                    if u < kd.len() {
                        assert(kept_dirs@[u] == kd[u]);
                        assert(dirs_view(kd)[u] == kd[u]@);
                    } else {
                        assert(kept_dirs@[u] == nd0[u - kd.len()]);
                        assert(dirs_view(nd0)[u - kd.len()] == nd0[u - kd.len()]@);
                    }
                }
            }
        }
        self.songs = new_songs;
        self.dirs = kept_dirs;
        proof {
            lemma_commit_wf(old_sv, old_dv, cv, msq, timestamp);
            assert(self.wf());
        }
        Ok(())
    }

    /// Every song at or under the given virtual directory, recursively, in
    /// stored order. The empty path flattens the whole collection.
    pub fn flatten(&self, virtual_path: &str) -> (r: Result<Vec<Song>, Error>)
        requires
            self.wf(),
        ensures
            r is Ok <==> (virtual_path@.len() == 0 || has_dir(dirs_view(self.dirs@), virtual_path@)
                || has_song(songs_view(self.songs@), virtual_path@)),
            virtual_path@.len() == 0 && r is Ok ==> songs_view(r->Ok_0@) == songs_view(
                self.songs@,
            ),
            virtual_path@.len() != 0 && r is Ok ==> songs_view(r->Ok_0@) == songs_under(
                songs_view(self.songs@),
                virtual_path@,
            ),
            r is Err ==> r->Err_0@ == crate::types::ErrorV::DirectoryNotFound(virtual_path@),
    {
        let ghost sv = songs_view(self.songs@);
        if virtual_path.unicode_len() == 0 {
            let mut out: Vec<Song> = Vec::new();
            let mut i: usize = 0;
            while i < self.songs.len()
                invariant
                    i <= self.songs@.len(),
                    sv == songs_view(self.songs@),
                    songs_view(out@) =~= sv.take(i as int),
                decreases self.songs@.len() - i,
            {
                let ghost o0 = out@;
                let sc = self.songs[i].clone();
                out.push(sc);
                proof {
                    lemma_map_values_push(o0, sc, |s: Song| s@);
                    assert(songs_view(out@) =~= sv.take(i as int + 1));
                }
                i += 1;
            }
            proof {
                assert(sv.take(self.songs@.len() as int) =~= sv);
            }
            return Ok(out);
        }
        if !self.contains_dir(virtual_path) && !self.contains_song(virtual_path) {
            return Err(Error::DirectoryNotFound(virtual_path.to_owned()));
        }
        let ghost fu = |s: SongV| is_under(virtual_path@, s.virtual_path);
        let mut out: Vec<Song> = Vec::new();
        let mut i: usize = 0;
        while i < self.songs.len()
            invariant
                i <= self.songs@.len(),
                sv == songs_view(self.songs@),
                fu == (|s: SongV| is_under(virtual_path@, s.virtual_path)),
                songs_view(out@) =~= sv.take(i as int).filter(fu),
            decreases self.songs@.len() - i,
        {
            let s = &self.songs[i];
            let hit = under_root(s.virtual_path.as_str(), virtual_path);
            proof {
                lemma_filter_take_step(sv, i as int, fu);
                assert(sv[i as int] == self.songs@[i as int]@);
            }
            if hit {
                let ghost o0 = out@;
                let sc = self.songs[i].clone();
                out.push(sc);
                proof {
                    assert(fu(sv[i as int]));
                    lemma_map_values_push(o0, sc, |s: Song| s@);
                    assert(songs_view(out@) =~= sv.take(i as int + 1).filter(fu));
                }
            } else {
                proof {
                    assert(!fu(sv[i as int]));
                }
            }
            i += 1;
        }
        proof {
            assert(sv.take(self.songs@.len() as int) =~= sv);
            assert(songs_view(out@) == songs_under(sv, virtual_path@));
        }
        Ok(out)
    }
}

} // verus!
