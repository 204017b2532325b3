//! Virtual filesystem mapper: a table of named mount points, each mapping a
//! virtual path prefix onto a real directory, with resolution in both
//! directions.

use vstd::prelude::*;

use crate::strutil::{
    eq_str, join_with, lemma_join_split, lemma_split_concat, lemma_split_len,
    lemma_split_sep_free, sep_free, split_on, split_string, views_of,
};
use crate::types::Error;

verus! {

/// Separator of virtual path components. Real paths handed to this crate use
/// the same separator.
pub const PATH_SEPARATOR: char = '/';

/// Ghost image of a `MountDir`.
pub ghost struct MountDirV {
    pub name: Seq<char>,
    pub source: Seq<char>,
}

/// A named mount point: the virtual root `name` stands for the real
/// directory `source`.
#[derive(Debug, PartialEq, Eq)]
pub struct MountDir {
    pub name: String,
    pub source: String,
}

impl View for MountDir {
    type V = MountDirV;

    open spec fn view(&self) -> MountDirV {
        MountDirV { name: self.name@, source: self.source@ }
    }
}

impl Clone for MountDir {
    fn clone(&self) -> (r: Self)
        ensures
            r@ == self@,
    {
        MountDir { name: self.name.clone(), source: self.source.clone() }
    }
}

/// The views of a sequence of mount points.
pub open spec fn mount_views(ms: Seq<MountDir>) -> Seq<MountDirV> {
    ms.map_values(|m: MountDir| m@)
}

pub proof fn lemma_mount_views_push(s: Seq<MountDir>, m: MountDir)
    ensures
        mount_views(s.push(m)) =~= mount_views(s).push(m@),
{
    assert forall|j: int| 0 <= j < s.len() + 1 implies mount_views(s.push(m))[j] == mount_views(
        s,
    ).push(m@)[j] by {
        if j < s.len() {
            assert(s.push(m)[j] == s[j]);
        } else {
            assert(s.push(m)[j] == m);
        }
    }
}

/// A usable mount name: non-empty, free of the path separator, and not a
/// traversal component.
pub open spec fn valid_mount_name(n: Seq<char>) -> bool {
    &&& n.len() > 0
    &&& sep_free(n, PATH_SEPARATOR)
    &&& n != seq!['.']
    &&& n != seq!['.', '.']
}

/// A usable virtual path component: non-empty and not a traversal component.
pub open spec fn valid_component(c: Seq<char>) -> bool {
    &&& c.len() > 0
    &&& c != seq!['.']
    &&& c != seq!['.', '.']
}

/// A traversal component, which would escape the mount root.
pub open spec fn traversal_component(c: Seq<char>) -> bool {
    c == seq!['.'] || c == seq!['.', '.']
}

/// All components are usable.
pub open spec fn parts_valid(pp: Seq<Seq<char>>) -> bool {
    forall|i: int| 0 <= i < pp.len() ==> valid_component(#[trigger] pp[i])
}

/// Some component attempts traversal.
pub open spec fn has_traversal(pp: Seq<Seq<char>>) -> bool {
    exists|i: int| 0 <= i < pp.len() && traversal_component(#[trigger] pp[i])
}

/// A well-formed mount table: every name usable, no name repeated.
pub open spec fn wf_mounts(ms: Seq<MountDirV>) -> bool {
    &&& forall|i: int| 0 <= i < ms.len() ==> valid_mount_name((#[trigger] ms[i]).name)
    &&& forall|i: int, j: int|
        0 <= i < j < ms.len() ==> (#[trigger] ms[i]).name != (#[trigger] ms[j]).name
}

/// Index of the first mount with the given name, or -1.
pub open spec fn find_mount_by_name(ms: Seq<MountDirV>, name: Seq<char>) -> int
    decreases ms.len(),
{
    if ms.len() == 0 {
        -1
    } else if ms[0].name == name {
        0
    } else {
        let r = find_mount_by_name(ms.skip(1), name);
        if r < 0 {
            -1
        } else {
            1 + r
        }
    }
}

pub proof fn lemma_find_mount_by_name(ms: Seq<MountDirV>, name: Seq<char>)
    ensures
        find_mount_by_name(ms, name) == -1 ==> forall|k: int|
            0 <= k < ms.len() ==> (#[trigger] ms[k]).name != name,
        find_mount_by_name(ms, name) >= 0 ==> {
            let i = find_mount_by_name(ms, name);
            &&& i < ms.len()
            &&& ms[i].name == name
            &&& forall|k: int| 0 <= k < i ==> (#[trigger] ms[k]).name != name
        },
    decreases ms.len(),
{
    if ms.len() == 0 {
    } else if ms[0].name == name {
    } else {
        lemma_find_mount_by_name(ms.skip(1), name);
        let r = find_mount_by_name(ms.skip(1), name);
        if r < 0 {
            assert forall|k: int| 0 <= k < ms.len() implies (#[trigger] ms[k]).name != name by {
                if k > 0 {
                    assert(ms.skip(1)[k - 1] == ms[k]);
                }
            }
        } else {
            assert(ms.skip(1)[r] == ms[r + 1]);
            assert forall|k: int| 0 <= k < r + 1 implies (#[trigger] ms[k]).name != name by {
                if k > 0 {
                    assert(ms.skip(1)[k - 1] == ms[k]);
                }
            }
        }
    }
}

/// `p` lies at or under the directory `root`.
pub open spec fn is_under(root: Seq<char>, p: Seq<char>) -> bool {
    p == root || (p.len() > root.len() && p.subrange(0, root.len() as int) == root && p[root.len()
        as int] == PATH_SEPARATOR)
}

/// Index of the first mount whose source directory contains `p`, or -1.
pub open spec fn find_mount_of_real(ms: Seq<MountDirV>, p: Seq<char>) -> int
    decreases ms.len(),
{
    if ms.len() == 0 {
        -1
    } else if is_under(ms[0].source, p) {
        0
    } else {
        let r = find_mount_of_real(ms.skip(1), p);
        if r < 0 {
            -1
        } else {
            1 + r
        }
    }
}

pub proof fn lemma_find_mount_of_real(ms: Seq<MountDirV>, p: Seq<char>)
    ensures
        find_mount_of_real(ms, p) == -1 ==> forall|k: int|
            0 <= k < ms.len() ==> !is_under((#[trigger] ms[k]).source, p),
        find_mount_of_real(ms, p) >= 0 ==> {
            let i = find_mount_of_real(ms, p);
            &&& i < ms.len()
            &&& is_under(ms[i].source, p)
            &&& forall|k: int| 0 <= k < i ==> !is_under((#[trigger] ms[k]).source, p)
        },
    decreases ms.len(),
{
    if ms.len() == 0 {
    } else if is_under(ms[0].source, p) {
    } else {
        lemma_find_mount_of_real(ms.skip(1), p);
        let r = find_mount_of_real(ms.skip(1), p);
        if r < 0 {
            assert forall|k: int| 0 <= k < ms.len() implies !is_under(
                (#[trigger] ms[k]).source,
                p,
            ) by {
                if k > 0 {
                    assert(ms.skip(1)[k - 1] == ms[k]);
                }
            }
        } else {
            assert(ms.skip(1)[r] == ms[r + 1]);
            assert forall|k: int| 0 <= k < r + 1 implies !is_under(
                (#[trigger] ms[k]).source,
                p,
            ) by {
                if k > 0 {
                    assert(ms.skip(1)[k - 1] == ms[k]);
                }
            }
        }
    }
}

/// The real path a mount source and a component list resolve to.
pub open spec fn real_of(source: Seq<char>, pp: Seq<Seq<char>>) -> Seq<char> {
    if pp.len() <= 1 {
        source
    } else {
        source + seq![PATH_SEPARATOR] + join_with(pp.skip(1), PATH_SEPARATOR)
    }
}

/// What `resolve` returns: the mount named by the first component, with the
/// remaining components appended to its source directory.
pub open spec fn resolve_spec(ms: Seq<MountDirV>, vp: Seq<char>) -> Option<Seq<char>> {
    let pp = split_on(vp, PATH_SEPARATOR);
    if !parts_valid(pp) {
        None
    } else {
        let i = find_mount_by_name(ms, pp[0]);
        if i < 0 {
            None
        } else {
            Some(real_of(ms[i].source, pp))
        }
    }
}

/// What `unresolve` returns: the first mount containing the real path, its
/// name put in place of its source directory.
pub open spec fn unresolve_spec(ms: Seq<MountDirV>, rp: Seq<char>) -> Option<Seq<char>> {
    let i = find_mount_of_real(ms, rp);
    if i < 0 {
        None
    } else {
        Some(ms[i].name + rp.skip(ms[i].source.len() as int))
    }
}

/// Check one virtual path component.
pub fn check_component(c: &str) -> (r: bool)
    ensures
        r == valid_component(c@),
{
    proof {
        reveal_strlit(".");
        reveal_strlit("..");
        assert("."@ =~= seq!['.']);
        assert(".."@ =~= seq!['.', '.']);
    }
    if c.unicode_len() == 0 {
        return false;
    }
    if eq_str(c, ".") {
        return false;
    }
    if eq_str(c, "..") {
        return false;
    }
    true
}

/// Check whether a component attempts traversal.
pub fn check_traversal(c: &str) -> (r: bool)
    ensures
        r == traversal_component(c@),
{
    proof {
        reveal_strlit(".");
        reveal_strlit("..");
        assert("."@ =~= seq!['.']);
        assert(".."@ =~= seq!['.', '.']);
    }
    if eq_str(c, ".") {
        return true;
    }
    if eq_str(c, "..") {
        return true;
    }
    false
}

/// Check that a string is free of the path separator.
pub fn check_sep_free(s: &str) -> (r: bool)
    ensures
        r == sep_free(s@, PATH_SEPARATOR),
{
    let n = s.unicode_len();
    let mut i: usize = 0;
    while i < n
        invariant
            i <= n,
            n == s@.len(),
            forall|j: int| 0 <= j < i ==> s@[j] != PATH_SEPARATOR,
        decreases n - i,
    {
        if s.get_char(i) == PATH_SEPARATOR {
            return false;
        }
        i += 1;
    }
    true
}

/// The mount table. Mutated wholesale by `set_mount_dirs`; all queries read a
/// consistent table.
pub struct Vfs {
    pub mounts: Vec<MountDir>,
}

impl Vfs {
    /// The table is well-formed: this is established by every constructor and
    /// kept by every mutation.
    pub open spec fn wf(&self) -> bool {
        wf_mounts(mount_views(self.mounts@))
    }

    /// The views of the configured mounts.
    pub open spec fn mounts_view(&self) -> Seq<MountDirV> {
        mount_views(self.mounts@)
    }

    /// An empty mount table.
    pub fn new() -> (r: Vfs)
        ensures
            r.wf(),
            r.mounts_view() =~= Seq::<MountDirV>::empty(),
    {
        let r = Vfs { mounts: Vec::new() };
        proof {
            assert(mount_views(r.mounts@) =~= Seq::<MountDirV>::empty());
        }
        r
    }

    /// The configured mounts, in order.
    pub fn mount_dirs(&self) -> (r: Vec<MountDir>)
        ensures
            mount_views(r@) =~= self.mounts_view(),
    {
        let mut r: Vec<MountDir> = Vec::new();
        let mut i: usize = 0;
        while i < self.mounts.len()
            invariant
                i <= self.mounts@.len(),
                mount_views(r@) =~= mount_views(self.mounts@).subrange(0, i as int),
            decreases self.mounts@.len() - i,
        {
            let m = self.mounts[i].clone();
            let ghost r0 = r@;
            r.push(m);
            proof {
                assert(r@ == r0.push(m));
                lemma_mount_views_push(r0, m);
                assert(m@ == mount_views(self.mounts@)[i as int]);
                assert(mount_views(self.mounts@).subrange(0, i as int + 1) =~= mount_views(
                    self.mounts@,
                ).subrange(0, i as int).push(mount_views(self.mounts@)[i as int]));
                assert(mount_views(r@) =~= mount_views(self.mounts@).subrange(0, i as int + 1));
            }
            i += 1;
        }
        r
    }

    /// Replace the whole mount table. Rejects a table with an unusable or
    /// repeated name and leaves the old table in place; the caller must
    /// re-trigger indexing after a successful replacement, since songs under
    /// removed mounts are orphaned.
    pub fn set_mount_dirs(&mut self, dirs: Vec<MountDir>) -> (r: Result<(), Error>)
        ensures
            r is Ok <==> wf_mounts(mount_views(dirs@)),
            r is Ok ==> final(self).mounts_view() == mount_views(dirs@),
            r is Err ==> *final(self) == *old(self),
            final(self).wf() <== old(self).wf(),
    {
        let n = dirs.len();
        let mut i: usize = 0;
        while i < n
            invariant
                i <= n,
                n == dirs@.len(),
                forall|k: int|
                    0 <= k < i ==> valid_mount_name((#[trigger] mount_views(dirs@)[k]).name),
            decreases n - i,
        {
            let name = &dirs[i].name;
            if name.as_str().unicode_len() == 0 || !check_sep_free(name.as_str())
                || !check_component(name.as_str()) {
                proof {
                    assert(mount_views(dirs@)[i as int].name == dirs@[i as int].name@);
                    assert(!valid_mount_name(mount_views(dirs@)[i as int].name));
                    assert(!wf_mounts(mount_views(dirs@)));
                }
                return Err(Error::InvalidPath(name.clone()));
            }
            i += 1;
        }
        let mut i: usize = 0;
        while i < n
            invariant
                i <= n,
                n == dirs@.len(),
                forall|k: int, l: int|
                    0 <= k < l < i ==> (#[trigger] mount_views(dirs@)[k]).name
                        != (#[trigger] mount_views(dirs@)[l]).name,
            decreases n - i,
        {
            let mut j: usize = 0;
            while j < i
                invariant
                    j <= i < n,
                    n == dirs@.len(),
                    forall|k: int|
                        0 <= k < j ==> (#[trigger] mount_views(dirs@)[k]).name != mount_views(
                            dirs@,
                        )[i as int].name,
                decreases i - j,
            {
                if dirs[j].name == dirs[i].name {
                    proof {
                        assert(mount_views(dirs@)[j as int].name == mount_views(
                            dirs@,
                        )[i as int].name);
                        assert(!wf_mounts(mount_views(dirs@)));
                    }
                    return Err(Error::InvalidPath(dirs[i].name.clone()));
                }
                j += 1;
            }
            i += 1;
        }
        self.mounts = dirs;
        Ok(())
    }

    /// Map a virtual path to the real path it denotes. A traversal component
    /// is rejected as `InvalidPath`; an empty component or an unknown mount
    /// name is `DirectoryNotFound`.
    pub fn resolve(&self, virtual_path: &str) -> (r: Result<String, Error>)
        ensures
            r is Ok <==> resolve_spec(self.mounts_view(), virtual_path@) is Some,
            r is Ok ==> r->Ok_0@ == resolve_spec(self.mounts_view(), virtual_path@)->Some_0,
            r is Err ==> match r->Err_0@ {
                crate::types::ErrorV::InvalidPath(p) => p == virtual_path@ && has_traversal(
                    split_on(virtual_path@, PATH_SEPARATOR),
                ),
                crate::types::ErrorV::DirectoryNotFound(p) => p == virtual_path@
                    && !has_traversal(split_on(virtual_path@, PATH_SEPARATOR)),
            },
    {
        let comps = split_string(virtual_path, PATH_SEPARATOR);
        let ghost pp = split_on(virtual_path@, PATH_SEPARATOR);
        let n = comps.len();
        let mut i: usize = 0;
        while i < n
            invariant
                i <= n,
                n == comps@.len(),
                pp == split_on(virtual_path@, PATH_SEPARATOR),
                views_of(comps@) =~~= pp,
                forall|k: int| 0 <= k < i ==> !traversal_component(#[trigger] pp[k]),
            decreases n - i,
        {
            if check_traversal(comps[i].as_str()) {
                proof {
                    assert(pp[i as int] == comps@[i as int]@);
                    assert(has_traversal(pp));
                    assert(!valid_component(pp[i as int]));
                    assert(!parts_valid(pp));
                }
                return Err(Error::InvalidPath(virtual_path.to_owned()));
            }
            i += 1;
        }
        proof {
            assert(!has_traversal(pp));
        }
        let mut i: usize = 0;
        while i < n
            invariant
                i <= n,
                n == comps@.len(),
                pp == split_on(virtual_path@, PATH_SEPARATOR),
                views_of(comps@) =~~= pp,
                !has_traversal(pp),
                forall|k: int| 0 <= k < i ==> valid_component(#[trigger] pp[k]),
            decreases n - i,
        {
            if !check_component(comps[i].as_str()) {
                proof {
                    assert(pp[i as int] == comps@[i as int]@);
                    assert(!parts_valid(pp));
                }
                return Err(Error::DirectoryNotFound(virtual_path.to_owned()));
            }
            i += 1;
        }
        proof {
            assert(parts_valid(pp));
            assert(!has_traversal(pp));
            lemma_find_mount_by_name(self.mounts_view(), pp[0]);
        }
        let ghost ms = self.mounts_view();
        let nm = self.mounts.len();
        let mut mi: usize = 0;
        while mi < nm
            invariant
                mi <= nm,
                nm == self.mounts@.len(),
                ms == self.mounts_view(),
                comps@.len() >= 1,
                n == comps@.len(),
                pp == split_on(virtual_path@, PATH_SEPARATOR),
                views_of(comps@) =~~= pp,
                parts_valid(pp),
                !has_traversal(pp),
                forall|k: int| 0 <= k < mi ==> (#[trigger] ms[k]).name != pp[0],
            decreases nm - mi,
        {
            if self.mounts[mi].name == comps[0] {
                proof {
                    assert(ms[mi as int].name == pp[0]);
                    lemma_find_mount_by_name(ms, pp[0]);
                    assert(find_mount_by_name(ms, pp[0]) == mi);
                }
                let mut rp = self.mounts[mi].source.clone();
                let mut k: usize = 1;
                proof {
                    assert(join_with(pp.subrange(1, 1), PATH_SEPARATOR)
                        =~= Seq::<char>::empty());
                }
                while k < n
                    invariant
                        1 <= k <= n,
                        n == comps@.len(),
                        mi < self.mounts@.len(),
                        ms == self.mounts_view(),
                        pp == split_on(virtual_path@, PATH_SEPARATOR),
                        views_of(comps@) =~~= pp,
                        parts_valid(pp),
                        !has_traversal(pp),
                        find_mount_by_name(ms, pp[0]) == mi as int,
                        rp@ =~= if k == 1 {
                            ms[mi as int].source
                        } else {
                            ms[mi as int].source + seq![PATH_SEPARATOR] + join_with(
                                pp.subrange(1, k as int),
                                PATH_SEPARATOR,
                            )
                        },
                    decreases n - k,
                {
                    rp.append("/");
                    rp.append(comps[k].as_str());
                    proof {
                        reveal_strlit("/");
                        assert("/"@ =~= seq![PATH_SEPARATOR]);
                        let prev = pp.subrange(1, k as int);
                        let cur = pp.subrange(1, k as int + 1);
                        if k == 1 {
                            assert(cur =~= seq![pp[1]]);
                            assert(join_with(cur, PATH_SEPARATOR) == pp[1]);
                        } else {
                            assert(cur =~= prev.push(pp[k as int]));
                            lemma_join_push(prev, pp[k as int], PATH_SEPARATOR);
                        }
                    }
                    k += 1;
                }
                proof {
                    assert(pp.subrange(1, n as int) =~~= pp.skip(1));
                    assert(rp@ =~= real_of(ms[mi as int].source, pp));
                }
                return Ok(rp);
            }
            mi += 1;
        }
        proof {
            lemma_find_mount_by_name(ms, pp[0]);
            assert(find_mount_by_name(ms, pp[0]) == -1) by {
                if find_mount_by_name(ms, pp[0]) >= 0 {
                    let i0 = find_mount_by_name(ms, pp[0]);
                    assert(ms[i0].name == pp[0]);
                }
            }
        }
        Err(Error::DirectoryNotFound(virtual_path.to_owned()))
    }

    /// Map a real path back to the virtual path it is known under, through
    /// the first mount whose source directory contains it.
    pub fn unresolve(&self, real_path: &str) -> (r: Result<String, Error>)
        ensures
            r is Ok <==> unresolve_spec(self.mounts_view(), real_path@) is Some,
            r is Ok ==> r->Ok_0@ == unresolve_spec(self.mounts_view(), real_path@)->Some_0,
    {
        let ghost ms = self.mounts_view();
        let n = real_path.unicode_len();
        let nm = self.mounts.len();
        let mut mi: usize = 0;
        while mi < nm
            invariant
                mi <= nm,
                nm == self.mounts@.len(),
                ms == self.mounts_view(),
                n == real_path@.len(),
                forall|k: int| 0 <= k < mi ==> !is_under((#[trigger] ms[k]).source, real_path@),
            decreases nm - mi,
        {
            let source = &self.mounts[mi].source;
            let sn = source.as_str().unicode_len();
            if under_root(real_path, source.as_str()) {
                proof {
                    lemma_find_mount_of_real(ms, real_path@);
                    assert(is_under(ms[mi as int].source, real_path@));
                    assert(find_mount_of_real(ms, real_path@) == mi);
                }
                let mut v = self.mounts[mi].name.clone();
                let suffix = real_path.substring_char(sn, n);
                v.append(suffix);
                proof {
                    assert(real_path@.subrange(sn as int, n as int) =~= real_path@.skip(
                        sn as int,
                    ));
                }
                return Ok(v);
            }
            mi += 1;
        }
        proof {
            lemma_find_mount_of_real(ms, real_path@);
            assert(find_mount_of_real(ms, real_path@) == -1) by {
                if find_mount_of_real(ms, real_path@) >= 0 {
                    let i0 = find_mount_of_real(ms, real_path@);
                    assert(is_under(ms[i0].source, real_path@));
                }
            }
        }
        Err(Error::DirectoryNotFound(real_path.to_owned()))
    }
}

/// `path` lies at or under the directory `root`.
pub fn under_root(path: &str, root: &str) -> (r: bool)
    ensures
        r == is_under(root@, path@),
{
    let np = path.unicode_len();
    let nr = root.unicode_len();
    if np < nr {
        proof {
            if path@ == root@ {
                assert(path@.len() == root@.len());
            }
        }
        return false;
    }
    if np == nr {
        return eq_str(path, root);
    }
    let prefix = path.substring_char(0, nr);
    if !eq_str(prefix, root) {
        return false;
    }
    if path.get_char(nr) == PATH_SEPARATOR {
        return true;
    }
    false
}

/// Joining one more component appends a separator and the component.
pub proof fn lemma_join_push(pp: Seq<Seq<char>>, c: Seq<char>, sep: char)
    requires
        pp.len() >= 1,
    ensures
        join_with(pp.push(c), sep) =~= join_with(pp, sep) + seq![sep] + c,
    decreases pp.len(),
{
    let p = pp.push(c);
    if pp.len() == 1 {
        assert(p.skip(1) =~= seq![c]);
        assert(join_with(p, sep) == p[0] + seq![sep] + join_with(p.skip(1), sep));
        assert(join_with(seq![c], sep) == c);
    } else {
        assert(p.skip(1) =~= pp.skip(1).push(c));
        lemma_join_push(pp.skip(1), c, sep);
        assert(join_with(p, sep) == p[0] + seq![sep] + join_with(p.skip(1), sep));
        assert(join_with(pp, sep) == pp[0] + seq![sep] + join_with(pp.skip(1), sep));
        assert(join_with(pp, sep) + seq![sep] + c =~= pp[0] + seq![sep] + (join_with(
            pp.skip(1),
            sep,
        ) + seq![sep] + c));
    }
}

/// Joining two non-empty piece lists joins them around one separator.
pub proof fn lemma_join_concat(a: Seq<Seq<char>>, b: Seq<Seq<char>>, sep: char)
    requires
        a.len() >= 1,
        b.len() >= 1,
    ensures
        join_with(a + b, sep) =~= join_with(a, sep) + seq![sep] + join_with(b, sep),
    decreases a.len(),
{
    let w = a + b;
    if a.len() == 1 {
        assert(w.len() >= 2);
        assert(w.skip(1) =~~= b);
        assert(join_with(w, sep) == w[0] + seq![sep] + join_with(w.skip(1), sep));
        assert(w[0] == a[0]);
        assert(join_with(a, sep) == a[0]);
    } else {
        assert(w.skip(1) =~~= a.skip(1) + b);
        lemma_join_concat(a.skip(1), b, sep);
        assert(join_with(w, sep) == w[0] + seq![sep] + join_with(w.skip(1), sep));
        assert(join_with(a, sep) == a[0] + seq![sep] + join_with(a.skip(1), sep));
        assert(join_with(a, sep) + seq![sep] + join_with(b, sep) =~= a[0] + seq![sep] + (join_with(
            a.skip(1),
            sep,
        ) + seq![sep] + join_with(b, sep)));
    }
}

/// Being at or under a directory is the same as extending its component
/// list.
pub proof fn lemma_under_iff(root: Seq<char>, p: Seq<char>)
    ensures
        is_under(root, p) <==> split_on(root, PATH_SEPARATOR).is_prefix_of(
            split_on(p, PATH_SEPARATOR),
        ),
{
    let pr = split_on(root, PATH_SEPARATOR);
    let ppp = split_on(p, PATH_SEPARATOR);
    lemma_split_len(root, PATH_SEPARATOR);
    lemma_split_len(p, PATH_SEPARATOR);
    if is_under(root, p) {
        if p == root {
            assert(pr.is_prefix_of(ppp));
        } else {
            let tail = p.skip(root.len() as int + 1);
            assert(p =~= root + seq![PATH_SEPARATOR] + tail);
            lemma_split_concat(root, tail, PATH_SEPARATOR);
            assert(ppp =~~= pr + split_on(tail, PATH_SEPARATOR));
            assert(ppp.take(pr.len() as int) =~~= pr);
            assert(pr.is_prefix_of(ppp));
        }
    }
    if pr.is_prefix_of(ppp) {
        lemma_join_split(root, PATH_SEPARATOR);
        lemma_join_split(p, PATH_SEPARATOR);
        if pr.len() == ppp.len() {
            assert(pr =~~= ppp);
            assert(p =~= root);
        } else {
            let rest = ppp.skip(pr.len() as int);
            assert(ppp =~~= pr + rest);
            lemma_join_concat(pr, rest, PATH_SEPARATOR);
            assert(p =~= join_with(pr, PATH_SEPARATOR) + seq![PATH_SEPARATOR] + join_with(
                rest,
                PATH_SEPARATOR,
            ));
            assert(p =~= root + seq![PATH_SEPARATOR] + join_with(rest, PATH_SEPARATOR));
            assert(p.subrange(0, root.len() as int) =~= root);
            assert(p[root.len() as int] == PATH_SEPARATOR);
            assert(is_under(root, p));
        }
    }
}

/// Path round-trip: a real file under a known mount maps to a virtual path
/// that resolves back to exactly that file. Holds for every well-formed mount
/// table and every real path whose components below the mount source are
/// usable.
pub proof fn lemma_path_round_trip(ms: Seq<MountDirV>, f: Seq<char>)
    requires
        wf_mounts(ms),
        unresolve_spec(ms, f) is Some,
        ({
            let i = find_mount_of_real(ms, f);
            f != ms[i].source ==> parts_valid(
                split_on(f.skip(ms[i].source.len() as int + 1), PATH_SEPARATOR),
            )
        }),
    ensures
        resolve_spec(ms, unresolve_spec(ms, f)->Some_0) == Some(f),
{
    let i = find_mount_of_real(ms, f);
    lemma_find_mount_of_real(ms, f);
    assert(0 <= i < ms.len());
    let m = ms[i];
    let v = unresolve_spec(ms, f)->Some_0;
    assert(v == m.name + f.skip(m.source.len() as int));
    if f == m.source {
        assert(f.skip(m.source.len() as int) =~= Seq::<char>::empty());
        assert(v =~= m.name);
        lemma_split_sep_free(m.name, PATH_SEPARATOR);
        let pp = split_on(v, PATH_SEPARATOR);
        assert(pp =~~= seq![m.name]);
        assert(parts_valid(pp)) by {
            assert(pp[0] == m.name);
            assert(valid_component(m.name));
        }
        lemma_find_mount_by_name(ms, pp[0]);
        let j = find_mount_by_name(ms, pp[0]);
        assert(j >= 0) by {
            if j == -1 {
                assert(ms[i].name != pp[0]);
            }
        }
        assert(ms[j].name == m.name);
        assert(j == i) by {
            if j < i {
                assert(ms[j].name != ms[i].name);
            } else if j > i {
                assert(ms[i].name != ms[j].name);
            }
        }
        assert(real_of(ms[j].source, pp) == m.source);
    } else {
        let rest = f.skip(m.source.len() as int + 1);
        assert(f.subrange(0, m.source.len() as int) == m.source);
        assert(f[m.source.len() as int] == PATH_SEPARATOR);
        assert(v =~= m.name + seq![PATH_SEPARATOR] + rest);
        lemma_split_concat(m.name, rest, PATH_SEPARATOR);
        lemma_split_sep_free(m.name, PATH_SEPARATOR);
        let pp = split_on(v, PATH_SEPARATOR);
        let ppr = split_on(rest, PATH_SEPARATOR);
        assert(pp =~~= seq![m.name] + ppr);
        lemma_split_len(rest, PATH_SEPARATOR);
        assert(parts_valid(pp)) by {
            assert(pp[0] == m.name);
            assert(valid_component(m.name));
            assert(forall|k: int| 1 <= k < pp.len() ==> pp[k] == ppr[k - 1]);
            assert(parts_valid(ppr));
        }
        lemma_find_mount_by_name(ms, pp[0]);
        let j = find_mount_by_name(ms, pp[0]);
        assert(j >= 0) by {
            if j == -1 {
                assert(ms[i].name != pp[0]);
            }
        }
        assert(ms[j].name == m.name);
        assert(j == i) by {
            if j < i {
                assert(ms[j].name != ms[i].name);
            } else if j > i {
                assert(ms[i].name != ms[j].name);
            }
        }
        assert(pp.len() >= 2);
        assert(pp.skip(1) =~~= ppr);
        lemma_join_split(rest, PATH_SEPARATOR);
        assert(real_of(ms[j].source, pp) =~= m.source + seq![PATH_SEPARATOR] + rest);
        assert(f =~= m.source + seq![PATH_SEPARATOR] + rest);
    }
}

} // verus!
