use vstd::prelude::*;

use crate::error::{FsError, FsErrorKind};
use crate::path::{child_path, is_within, ResolvedPath};
use crate::text::{chars_of, push_all, push_range, string_of};

verus! {

/// What was read of a directory child's metadata.
#[derive(Clone, Copy, Debug, PartialEq, Eq, Structural)]
pub struct ChildMeta {
    /// Whether the child itself is a directory; a symbolic link is not.
    pub is_dir: bool,
    pub size: u64,
    /// Whether the child is a symbolic link.
    pub is_link: bool,
}

/// One child of a directory, as enumerated; `meta` is `None` when its
/// metadata could not be read.
#[derive(Debug)]
pub struct DirChild {
    pub name: String,
    pub meta: Option<ChildMeta>,
}

/// Directory names that are never listed, searched or descended into.
#[derive(Debug)]
pub struct ExclusionSet {
    pub names: Vec<String>,
}

impl ExclusionSet {
    pub open spec fn excludes(&self, name: Seq<char>) -> bool {
        exists|i: int| 0 <= i < self.names@.len() && #[trigger] self.names@[i]@ == name
    }

    /// The usual set: dependency, build-output and version-control directories.
    pub fn standard() -> (r: ExclusionSet)
        ensures
            r.names@.len() == 6,
            r.names@[0]@ == "node_modules"@,
            r.names@[1]@ == ".git"@,
            r.names@[2]@ == "target"@,
            r.names@[3]@ == "dist"@,
            r.names@[4]@ == ".nuxt"@,
            r.names@[5]@ == ".output"@,
    {
        let names = vec![
            String::from_str("node_modules"),
            String::from_str(".git"),
            String::from_str("target"),
            String::from_str("dist"),
            String::from_str(".nuxt"),
            String::from_str(".output"),
        ];
        ExclusionSet { names }
    }

    pub fn contains(&self, name: &String) -> (r: bool)
        ensures
            r == self.excludes(name@),
    {
        let mut i: usize = 0;
        while i < self.names.len()
            invariant
                i <= self.names@.len(),
                forall|j: int| 0 <= j < i ==> self.names@[j]@ != name@,
            decreases self.names@.len() - i,
        {
            if self.names[i] == *name {
                return true;
            }
            i += 1;
        }
        false
    }
}

/// One listed entry; `path` is relative to the project root.
#[derive(Debug)]
pub struct FileEntry {
    pub name: String,
    pub path: String,
    pub is_dir: bool,
    pub size: u64,
}

impl FileEntry {
    pub fn duplicate(&self) -> (r: FileEntry)
        ensures
            r.name@ == self.name@,
            r.path@ == self.path@,
            r.is_dir == self.is_dir,
            r.size == self.size,
    {
        FileEntry {
            name: self.name.clone(),
            path: self.path.clone(),
            is_dir: self.is_dir,
            size: self.size,
        }
    }
}

/// `name` below the root-relative directory `rel`; the root itself is the empty path.
pub open spec fn rel_child(rel: Seq<char>, name: Seq<char>) -> Seq<char> {
    if rel.len() == 0 {
        name
    } else {
        rel + seq!['/'] + name
    }
}

/// `p` relative to `root`, for a `p` within `root`.
pub open spec fn relative_of(root: Seq<char>, p: Seq<char>) -> Seq<char> {
    if p.len() <= root.len() {
        Seq::empty()
    } else if root.len() > 0 && root.last() == '/' {
        p.skip(root.len() as int)
    } else {
        p.skip(root.len() as int + 1)
    }
}

/// The absolute form of the root-relative path `rel`.
pub open spec fn absolute_of(root: Seq<char>, rel: Seq<char>) -> Seq<char> {
    if rel.len() == 0 {
        root
    } else {
        child_path(root, rel)
    }
}

pub fn rel_child_of(rel: &[char], name: &[char]) -> (r: Vec<char>)
    ensures
        r@ == rel_child(rel@, name@),
{
    let mut out: Vec<char> = Vec::new();
    push_all(&mut out, rel);
    if rel.len() > 0 {
        out.push('/');
    }
    push_all(&mut out, name);
    assert(out@ =~= rel_child(rel@, name@));
    out
}

pub fn relative_to(root: &[char], p: &[char]) -> (r: Vec<char>)
    ensures
        r@ == relative_of(root@, p@),
{
    let mut out: Vec<char> = Vec::new();
    if p.len() <= root.len() {
        return out;
    }
    let from = if root.len() > 0 && root[root.len() - 1] == '/' {
        root.len()
    } else {
        root.len() + 1
    };
    push_range(&mut out, p, from, p.len());
    assert(out@ =~= relative_of(root@, p@));
    out
}

pub fn absolute_from(root: &[char], rel: &[char]) -> (r: Vec<char>)
    ensures
        r@ == absolute_of(root@, rel@),
{
    let mut out: Vec<char> = Vec::new();
    push_all(&mut out, root);
    if rel.len() == 0 {
        assert(out@ =~= root@);
        return out;
    }
    if !(root.len() > 0 && root[root.len() - 1] == '/') {
        out.push('/');
    }
    push_all(&mut out, rel);
    assert(out@ =~= absolute_of(root@, rel@));
    out
}

/// Whether `e` records child `c` of the directory at `rel`.
pub open spec fn records(e: FileEntry, c: DirChild, rel: Seq<char>) -> bool {
    &&& e.name@ == c.name@
    &&& e.path@ == rel_child(rel, c.name@)
    &&& c.meta matches Some(m) && e.is_dir == (m.is_dir && !m.is_link) && e.size == m.size
}

/// An entry as plain values: name, root-relative path, whether a directory, size.
pub open spec fn entry_view(e: FileEntry) -> (Seq<char>, Seq<char>, bool, u64) {
    (e.name@, e.path@, e.is_dir, e.size)
}

pub open spec fn entries_view(es: Seq<FileEntry>) -> Seq<(Seq<char>, Seq<char>, bool, u64)> {
    es.map_values(|e: FileEntry| entry_view(e))
}

/// The entries that the children of the directory at `rel` give: the kept
/// ones, in order, each with its path below `rel` and its metadata.
pub open spec fn recorded(children: Seq<DirChild>, rel: Seq<char>, excl: ExclusionSet) -> Seq<
    (Seq<char>, Seq<char>, bool, u64),
> {
    kept_children(children, excl).map_values(
        |c: DirChild|
            match c.meta {
                Some(m) => (c.name@, rel_child(rel, c.name@), m.is_dir && !m.is_link, m.size),
                None => (c.name@, rel_child(rel, c.name@), false, 0u64),
            },
    )
}

/// Whether a kept child's metadata could not be read.
pub open spec fn unreadable_kept(children: Seq<DirChild>, excl: ExclusionSet) -> bool {
    exists|i: int|
        0 <= i < children.len() && !excl.excludes(#[trigger] children[i].name@)
            && children[i].meta is None
}

pub open spec fn kept_children(children: Seq<DirChild>, excl: ExclusionSet) -> Seq<DirChild> {
    children.filter(|c: DirChild| !excl.excludes(c.name@))
}

proof fn lemma_kept_push(children: Seq<DirChild>, c: DirChild, excl: ExclusionSet)
    ensures
        kept_children(children.push(c), excl) == if excl.excludes(c.name@) {
            kept_children(children, excl)
        } else {
            kept_children(children, excl).push(c)
        },
{
    reveal(Seq::filter);
    assert(children.push(c).drop_last() =~= children);
}

/// The entries for the children of the directory at root-relative `rel`:
/// excluded names are skipped, the others recorded in order. A symbolic link
/// is never recorded as a directory, so the walk does not follow it. A kept child
/// whose metadata could not be read fails the whole listing.
pub fn list_children(children: &Vec<DirChild>, rel: &[char], excl: &ExclusionSet) -> (r: Result<
    Vec<FileEntry>,
    FsError,
>)
    ensures
        r is Err <==> unreadable_kept(children@, *excl),
        r matches Err(e) ==> e.kind == FsErrorKind::IoError,
        r matches Ok(es) ==> entries_view(es@) == recorded(children@, rel@, *excl),
        r matches Ok(es) ==> {
            &&& es@.len() == kept_children(children@, *excl).len()
            &&& forall|i: int|
                0 <= i < es@.len() ==> records(
                    #[trigger] es@[i],
                    kept_children(children@, *excl)[i],
                    rel@,
                )
        },
{
    let mut out: Vec<FileEntry> = Vec::new();
    let mut k: usize = 0;
    assert(children@.take(0) =~= Seq::<DirChild>::empty());
    while k < children.len()
        invariant
            k <= children@.len(),
            out@.len() == kept_children(children@.take(k as int), *excl).len(),
            forall|i: int|
                0 <= i < out@.len() ==> records(
                    #[trigger] out@[i],
                    kept_children(children@.take(k as int), *excl)[i],
                    rel@,
                ),
            forall|i: int|
                0 <= i < k && !excl.excludes(#[trigger] children@[i].name@) ==> children@[i].meta
                    is Some,
        decreases children@.len() - k,
    {
        let c = &children[k];
        proof {
            assert(children@.take(k + 1) =~= children@.take(k as int).push(children@[k as int]));
            lemma_kept_push(children@.take(k as int), children@[k as int], *excl);
        }
        if !excl.contains(&c.name) {
            match c.meta {
                None => {
                    return Err(FsError::new(FsErrorKind::IoError, "Failed to read metadata"));
                },
                Some(m) => {
                    let name = chars_of(c.name.as_str());
                    let path = rel_child_of(rel, name.as_slice());
                    out.push(
                        FileEntry {
                            name: c.name.clone(),
                            path: string_of(path.as_slice()),
                            is_dir: m.is_dir && !m.is_link,
                            size: m.size,
                        },
                    );
                },
            }
        }
        k += 1;
    }
    assert(children@.take(children@.len() as int) =~= children@);
    assert(entries_view(out@) =~= recorded(children@, rel@, *excl));
    Ok(out)
}

/// No entry bears an excluded name.
pub open spec fn none_excluded(es: Seq<FileEntry>, excl: ExclusionSet) -> bool {
    forall|k: int| 0 <= k < es.len() ==> !excl.excludes(#[trigger] es[k].name@)
}

/// Each entry is a child of the starting directory `start`, or of a directory
/// entry listed before it.
pub open spec fn tree_shaped(es: Seq<FileEntry>, start: Seq<char>) -> bool {
    forall|k: int|
        0 <= k < es.len() ==> (#[trigger] es[k].path@ == rel_child(start, es[k].name@) || exists|
            j: int,
        |
            0 <= j < k && es[j].is_dir && es[k].path@ == rel_child(#[trigger] es[j].path@, es[k].name@))
}

/// The directory at `rel` is the starting one (`p == -1`) or entry `p`.
spec fn placed(entries: Seq<FileEntry>, start: Seq<char>, rel: Seq<char>, p: int) -> bool {
    if p == -1 {
        rel == start
    } else {
        0 <= p < entries.len() && entries[p].is_dir && entries[p].path@ == rel
    }
}

/// Entry `k` is a child of the directory its recorded parent stands for.
spec fn entry_placed(entries: Seq<FileEntry>, parents: Seq<int>, start: Seq<char>, k: int) -> bool {
    parents[k] < k && placed(entries, start, rel_parent_of(parents[k], entries, start), parents[k])
        && entries[k].path@ == rel_child(
        rel_parent_of(parents[k], entries, start),
        entries[k].name@,
    )
}

spec fn rel_parent_of(p: int, entries: Seq<FileEntry>, start: Seq<char>) -> Seq<char> {
    if p == -1 {
        start
    } else {
        entries[p].path@
    }
}

spec fn frame_ok(entries: Seq<FileEntry>, start: Seq<char>, excl: ExclusionSet, f: Frame) -> bool {
    &&& f.next <= f.entries@.len()
    &&& placed(entries, start, f.rel@, f.parent@)
    &&& forall|i: int|
        0 <= i < f.entries@.len() ==> !excl.excludes(#[trigger] f.entries@[i].name@)
            && f.entries@[i].path@ == rel_child(f.rel@, f.entries@[i].name@)
}

pub open spec fn has_no_slash(s: Seq<char>) -> bool {
    forall|i: int| 0 <= i < s.len() ==> s[i] != '/'
}

/// Whether the root-relative path `p` is the directory `d` at the top of the
/// root, or lies below it.
pub open spec fn at_or_below(p: Seq<char>, d: Seq<char>) -> bool {
    p == d || (p.len() > d.len() && p.take(d.len() as int) == d && p[d.len() as int] == '/')
}

proof fn lemma_entry_not_below(es: Seq<FileEntry>, excl: ExclusionSet, d: Seq<char>, k: int)
    requires
        0 <= k < es.len(),
        tree_shaped(es, Seq::empty()),
        none_excluded(es, excl),
        excl.excludes(d),
        has_no_slash(d),
        forall|i: int| 0 <= i < es.len() ==> has_no_slash(#[trigger] es[i].name@),
    ensures
        !at_or_below(es[k].path@, d),
    decreases k,
{
    let p = es[k].path@;
    let name = es[k].name@;
    assert(has_no_slash(name));
    assert(!excl.excludes(name));
    if p == rel_child(Seq::empty(), name) {
        assert(p == name);
        if p.len() > d.len() && p.take(d.len() as int) == d && p[d.len() as int] == '/' {
            assert(false);
        }
    } else {
        let j = choose|j: int|
            0 <= j < k && es[j].is_dir && p == rel_child(#[trigger] es[j].path@, name);
        let pj = es[j].path@;
        if pj.len() == 0 {
            assert(p == name);
            if p.len() > d.len() && p.take(d.len() as int) == d && p[d.len() as int] == '/' {
                assert(false);
            }
        } else {
            lemma_entry_not_below(es, excl, d, j);
            assert(p == pj + seq!['/'] + name);
            assert(p[pj.len() as int] == '/');
            if p == d {
                assert(d[pj.len() as int] == '/');
            }
            if p.len() > d.len() && p.take(d.len() as int) == d && p[d.len() as int] == '/' {
                if pj.len() > d.len() {
                    assert(pj.take(d.len() as int) =~= p.take(d.len() as int));
                    assert(pj[d.len() as int] == p[d.len() as int]);
                } else if pj.len() == d.len() {
                    assert(pj =~= p.take(d.len() as int));
                } else {
                    assert(p.take(d.len() as int)[pj.len() as int] == '/');
                }
            }
        }
    }
}

/// In a listing that starts at the root, no entry is an excluded directory,
/// and none lies below one, at any depth. (Directory entry names hold no '/'.)
pub proof fn lemma_nothing_below_excluded(es: Seq<FileEntry>, excl: ExclusionSet, d: Seq<char>)
    requires
        tree_shaped(es, Seq::empty()),
        none_excluded(es, excl),
        excl.excludes(d),
        has_no_slash(d),
        forall|i: int| 0 <= i < es.len() ==> has_no_slash(#[trigger] es[i].name@),
    ensures
        forall|k: int| 0 <= k < es.len() ==> !at_or_below(#[trigger] es[k].path@, d),
{
    assert forall|k: int| 0 <= k < es.len() implies !at_or_below(#[trigger] es[k].path@, d) by {
        lemma_entry_not_below(es, excl, d, k);
    }
}

struct Frame {
    rel: Vec<char>,
    entries: Vec<FileEntry>,
    next: usize,
    parent: Ghost<int>,
}

/// One step of a listing.
#[derive(Debug)]
pub enum WalkStep {
    /// Enumerate this directory and hand its children to `advance`.
    ReadDir(String),
    Finished(Result<Vec<FileEntry>, FsError>),
}

/// A depth-first listing of a directory, driven one directory read at a time.
/// Directories still to be finished are kept on an explicit stack.
pub struct DirectoryWalker {
    root: Vec<char>,
    start: Vec<char>,
    recursive: bool,
    exclusions: ExclusionSet,
    frames: Vec<Frame>,
    awaiting: Option<(Vec<char>, Ghost<int>)>,
    entries: Vec<FileEntry>,
    parents: Ghost<Seq<int>>,
}

/// The entries still to be taken, the innermost directory's first.
spec fn queue(fs: Seq<Frame>) -> Seq<(Seq<char>, Seq<char>, bool, u64)>
    decreases fs.len(),
{
    if fs.len() == 0 {
        Seq::empty()
    } else {
        entries_view(fs.last().entries@.skip(fs.last().next as int)) + queue(fs.drop_last())
    }
}

/// Whether the walk goes down into the entry `v`.
pub open spec fn descends(recursive: bool, v: (Seq<char>, Seq<char>, bool, u64)) -> bool {
    recursive && v.2
}

spec fn pending(fs: Seq<Frame>) -> nat
    decreases fs.len(),
{
    if fs.len() == 0 {
        0
    } else if fs.last().next <= fs.last().entries@.len() {
        pending(fs.drop_last()) + 1 + (fs.last().entries@.len() - fs.last().next) as nat
    } else {
        pending(fs.drop_last()) + 1
    }
}

impl DirectoryWalker {
    pub closed spec fn exclusion_set(&self) -> ExclusionSet {
        self.exclusions
    }

    /// The listed directory, relative to the root.
    pub closed spec fn start_dir(&self) -> Seq<char> {
        self.start@
    }

    pub closed spec fn root_dir(&self) -> Seq<char> {
        self.root@
    }

    /// The entries taken so far, in order.
    pub closed spec fn listed(&self) -> Seq<(Seq<char>, Seq<char>, bool, u64)> {
        entries_view(self.entries@)
    }

    /// The entries read but not yet taken, in the order they will be taken.
    pub closed spec fn queued(&self) -> Seq<(Seq<char>, Seq<char>, bool, u64)> {
        queue(self.frames@)
    }

    /// The root-relative path of the directory whose enumeration is awaited.
    pub closed spec fn awaited_dir(&self) -> Seq<char> {
        match self.awaiting {
            Some((rel, _)) => rel@,
            None => Seq::empty(),
        }
    }

    pub closed spec fn is_recursive(&self) -> bool {
        self.recursive
    }

    /// Whether a directory read was asked for and not yet answered.
    pub closed spec fn awaits(&self) -> bool {
        self.awaiting is Some
    }

    pub closed spec fn wf(&self) -> bool {
        &&& self.parents@.len() == self.entries@.len()
        &&& none_excluded(self.entries@, self.exclusions)
        &&& forall|k: int|
            0 <= k < self.entries@.len() ==> #[trigger] entry_placed(
                self.entries@,
                self.parents@,
                self.start@,
                k,
            )
        &&& forall|f: int|
            0 <= f < self.frames@.len() ==> frame_ok(
                self.entries@,
                self.start@,
                self.exclusions,
                #[trigger] self.frames@[f],
            )
        &&& self.awaiting matches Some((rel, p)) ==> placed(self.entries@, self.start@, rel@, p@)
    }

    /// Whether a directory read was asked for and not yet answered.
    pub fn is_waiting(&self) -> (r: bool)
        ensures
            r == self.awaits(),
    {
        self.awaiting.is_some()
    }

    proof fn lemma_wf_shape(&self)
        requires
            self.wf(),
        ensures
            tree_shaped(self.entries@, self.start@),
    {
        assert forall|k: int| 0 <= k < self.entries@.len() implies (#[trigger] self.entries@[k].path@
            == rel_child(self.start@, self.entries@[k].name@) || exists|j: int|
            0 <= j < k && self.entries@[j].is_dir && self.entries@[k].path@ == rel_child(
                #[trigger] self.entries@[j].path@,
                self.entries@[k].name@,
            )) by {
            assert(entry_placed(self.entries@, self.parents@, self.start@, k));
            let p = self.parents@[k];
            if p != -1 {
                assert(self.entries@[p].path@ == self.entries@[p].path@);
            }
        }
    }

    /// Begins listing `dir`. A path outside its root is refused as a
    /// traversal, and a path that is not a directory is refused too.
    pub fn start(dir: &ResolvedPath, is_dir: bool, recursive: bool, exclusions: ExclusionSet) -> (r: (
        DirectoryWalker,
        WalkStep,
    ))
        ensures
            r.0.wf(),
            r.0.exclusion_set() == exclusions,
            r.0.is_recursive() == recursive,
            r.0.root_dir() == dir.root@,
            !dir.contained() ==> (r.1 matches WalkStep::Finished(Err(e)) && e.kind
                == FsErrorKind::PathTraversal),
            dir.contained() && !is_dir ==> (r.1 matches WalkStep::Finished(Err(e)) && e.kind
                == FsErrorKind::NotADirectory),
            dir.contained() && is_dir ==> (r.1 matches WalkStep::ReadDir(p) && p@ == dir.path@
                && r.0.awaits() && r.0.start_dir() == relative_of(dir.root@, dir.path@)),
            !(dir.contained() && is_dir) ==> !r.0.awaits(),
            r.0.listed().len() == 0,
            r.0.queued().len() == 0,
            r.0.awaits() ==> r.0.awaited_dir() == relative_of(dir.root@, dir.path@),
    {
        let root = chars_of(dir.root.as_str());
        let path = chars_of(dir.path.as_str());
        let start = relative_to(root.as_slice(), path.as_slice());
        let contained = is_within(root.as_slice(), path.as_slice());
        let mut w = DirectoryWalker {
            root,
            start,
            recursive,
            exclusions,
            frames: Vec::new(),
            awaiting: None,
            entries: Vec::new(),
            parents: Ghost(Seq::empty()),
        };
        if !contained {
            let e = FsError::new(
                FsErrorKind::PathTraversal,
                "Path traversal outside project root is not allowed",
            );
            return (w, WalkStep::Finished(Err(e)));
        }
        if !is_dir {
            let e = FsError::new(FsErrorKind::NotADirectory, "Path is not a directory");
            return (w, WalkStep::Finished(Err(e)));
        }
        let rel = w.start.clone();
        w.awaiting = Some((rel, Ghost(-1int)));
        assert(w.queued() =~= Seq::empty());
        (w, WalkStep::ReadDir(dir.path.clone()))
    }

    /// Takes the enumeration of the directory asked for last, and goes on
    /// depth-first until the next directory to read, or to the end. A failed
    /// enumeration, or a kept child whose metadata could not be read, ends
    /// the listing with `IoError` and no entries.
    #[verifier::rlimit(40)]
    pub fn advance(&mut self, listing: Result<Vec<DirChild>, String>) -> (r: WalkStep)
        requires
            old(self).wf(),
            old(self).awaits(),
        ensures
            final(self).wf(),
            final(self).exclusion_set() == old(self).exclusion_set(),
            final(self).start_dir() == old(self).start_dir(),
            final(self).root_dir() == old(self).root_dir(),
            final(self).is_recursive() == old(self).is_recursive(),
            listing is Err ==> (r matches WalkStep::Finished(Err(e)) && e.kind
                == FsErrorKind::IoError),
            r matches WalkStep::Finished(Err(e)) ==> e.kind == FsErrorKind::IoError,
            r matches WalkStep::Finished(Ok(es)) ==> none_excluded(es@, old(self).exclusion_set())
                && tree_shaped(es@, old(self).start_dir()),
            r is ReadDir <==> final(self).awaits(),
            r is ReadDir ==> old(self).is_recursive(),
            match listing {
                Err(_) => true,
                Ok(children) => {
                    &&& unreadable_kept(children@, old(self).exclusion_set()) <==> (r is Finished
                        && !(r matches WalkStep::Finished(Ok(_))))
                    &&& !unreadable_kept(children@, old(self).exclusion_set()) ==> ({
                        let q = recorded(children@, old(self).awaited_dir(), old(self).exclusion_set())
                            + old(self).queued();
                        let rec = old(self).is_recursive();
                        match r {
                            WalkStep::ReadDir(p) => {
                                let j = final(self).listed().len() - old(self).listed().len() - 1;
                                &&& 0 <= j < q.len()
                                &&& final(self).listed() == old(self).listed() + q.take(j + 1)
                                &&& final(self).queued() == q.skip(j + 1)
                                &&& descends(rec, q[j])
                                &&& forall|k: int| 0 <= k < j ==> !descends(rec, #[trigger] q[k])
                                &&& p@ == absolute_of(old(self).root_dir(), q[j].1)
                                &&& final(self).awaited_dir() == q[j].1
                            },
                            WalkStep::Finished(Ok(es)) => {
                                &&& entries_view(es@) == old(self).listed() + q
                                &&& forall|k: int| 0 <= k < q.len() ==> !descends(rec, #[trigger] q[k])
                            },
                            WalkStep::Finished(Err(_)) => false,
                        }
                    })
                },
            },
    {
        let ghost e0 = entries_view(self.entries@);
        let ghost q0 = queue(self.frames@);
        let mut taken = None;
        std::mem::swap(&mut taken, &mut self.awaiting);
        let (rel, parent) = match taken {
            Some(a) => a,
            None => {
                return WalkStep::Finished(
                    Err(FsError::new(FsErrorKind::IoError, "No directory read was pending")),
                );
            },
        };
        let children = match listing {
            Err(_) => {
                return WalkStep::Finished(
                    Err(FsError::new(FsErrorKind::IoError, "Failed to read directory")),
                );
            },
            Ok(c) => c,
        };
        let listed = match list_children(&children, rel.as_slice(), &self.exclusions) {
            Err(e) => {
                return WalkStep::Finished(Err(e));
            },
            Ok(es) => es,
        };
        proof {
            assert forall|i: int| 0 <= i < listed@.len() implies !self.exclusions.excludes(
                #[trigger] listed@[i].name@,
            ) && listed@[i].path@ == rel_child(rel@, listed@[i].name@) by {
                let excl = self.exclusions;
                children@.lemma_filter_pred(|c: DirChild| !excl.excludes(c.name@), i);
            }
        }
        let ghost fresh = entries_view(listed@);
        let frame = Frame { rel, entries: listed, next: 0, parent };
        let ghost frames0 = self.frames@;
        self.frames.push(frame);
        assert(frame_ok(self.entries@, self.start@, self.exclusions, self.frames@.last()));
        proof {
            assert(self.frames@.drop_last() =~= frames0);
            assert(frame.entries@.skip(0) =~= frame.entries@);
            assert(queue(self.frames@) == fresh + q0);
        }
        assert(entries_view(self.entries@) == e0);
        let r = self.drain();
        proof {
            let q = fresh + q0;
            let n = self.entries@.len();
            if r is ReadDir {
                let v = entries_view(self.entries@);
                let t = v.skip(e0.len() as int);
                assert forall|i: int| 0 <= i < e0.len() implies v[i] == e0[i] by {
                    assert((v + queue(self.frames@))[i] == v[i]);
                    assert((e0 + q)[i] == e0[i]);
                }
                assert(v =~= e0 + t);
                assert(e0 + t + queue(self.frames@) == e0 + q);
                assert(t + queue(self.frames@) =~= q) by {
                    assert((e0 + t + queue(self.frames@)).skip(e0.len() as int) =~= t + queue(self.frames@));
                    assert((e0 + q).skip(e0.len() as int) =~= q);
                }
                assert(q.take(t.len() as int) =~= t);
                assert(q.skip(t.len() as int) =~= queue(self.frames@));
                assert forall|k: int| 0 <= k < t.len() - 1 implies !descends(self.recursive, #[trigger] q[k]) by {
                    assert(q[k] == t[k]);
                    assert(t[k] == entry_view(self.entries@[e0.len() + k]));
                }
                assert(q[t.len() - 1] == entry_view(self.entries@[n - 1]));
            }
            let rr = r;
            match rr {
                WalkStep::Finished(Ok(es)) => {
                    assert(entries_view(es@) == e0 + q);
                    assert forall|k: int| 0 <= k < q.len() implies !descends(self.recursive, #[trigger] q[k]) by {
                        assert(q[k] == (e0 + q)[e0.len() + k]);
                        assert(entries_view(es@)[e0.len() + k] == entry_view(es@[e0.len() + k]));
                    }
                },
                _ => {},
            }
        }
        r
    }

    fn drain(&mut self) -> (r: WalkStep)
        requires
            old(self).wf(),
            !old(self).awaits(),
        ensures
            final(self).wf(),
            final(self).exclusions == old(self).exclusions,
            final(self).start == old(self).start,
            final(self).root == old(self).root,
            final(self).recursive == old(self).recursive,
            r matches WalkStep::Finished(res) ==> res matches Ok(es) && none_excluded(
                es@,
                old(self).exclusions,
            ) && tree_shaped(es@, old(self).start@),
            r is ReadDir <==> final(self).awaits(),
            r is ReadDir ==> old(self).recursive,
            r matches WalkStep::ReadDir(p) ==> ({
                let n = final(self).entries@.len();
                &&& n > old(self).entries@.len()
                &&& entries_view(final(self).entries@) + queue(final(self).frames@) == entries_view(
                    old(self).entries@,
                ) + queue(old(self).frames@)
                &&& descends(old(self).recursive, entry_view(final(self).entries@[n - 1]))
                &&& forall|k: int|
                    old(self).entries@.len() <= k < n - 1 ==> !descends(
                        old(self).recursive,
                        entry_view(#[trigger] final(self).entries@[k]),
                    )
                &&& p@ == absolute_of(old(self).root@, final(self).entries@[n - 1].path@)
                &&& final(self).awaiting matches Some((rel, _)) && rel@ == final(self).entries@[n
                    - 1].path@
            }),
            r matches WalkStep::Finished(Ok(es)) ==> {
                &&& entries_view(es@) == entries_view(old(self).entries@) + queue(old(self).frames@)
                &&& forall|k: int|
                    old(self).entries@.len() <= k < es@.len() ==> !descends(
                        old(self).recursive,
                        entry_view(#[trigger] es@[k]),
                    )
            },
    {
        loop
            invariant
                self.wf(),
                !self.awaits(),
                entries_view(self.entries@) + queue(self.frames@) == entries_view(old(self).entries@)
                    + queue(old(self).frames@),
                self.entries@.len() >= old(self).entries@.len(),
                forall|k: int|
                    old(self).entries@.len() <= k < self.entries@.len() ==> !descends(
                        self.recursive,
                        entry_view(#[trigger] self.entries@[k]),
                    ),
                self.exclusions == old(self).exclusions,
                self.start == old(self).start,
                self.root == old(self).root,
                self.recursive == old(self).recursive,
            decreases pending(self.frames@),
        {
            let ghost frames0 = self.frames@;
            let popped = self.frames.pop();
            let mut f = match popped {
                None => {
                    proof {
                        self.lemma_wf_shape();
                    }
                    assert(queue(self.frames@) =~= Seq::empty());
                    assert(entries_view(self.entries@) =~= entries_view(self.entries@) + queue(
                        self.frames@,
                    ));
                    let mut out: Vec<FileEntry> = Vec::new();
                    std::mem::swap(&mut out, &mut self.entries);
                    self.parents = Ghost(Seq::empty());
                    return WalkStep::Finished(Ok(out));
                },
                Some(f) => f,
            };
            assert(self.frames@ =~= frames0.drop_last());
            assert(f == frames0.last());
            assert(frame_ok(self.entries@, self.start@, self.exclusions, f));
            assert(pending(frames0) == pending(self.frames@) + 1 + (f.entries@.len() - f.next));
            assert(queue(frames0) == entries_view(f.entries@.skip(f.next as int)) + queue(self.frames@));
            let ghost view0 = entries_view(self.entries@);
            if f.next >= f.entries.len() {
                assert(entries_view(f.entries@.skip(f.next as int)) =~= Seq::empty());
                assert(queue(frames0) =~= queue(self.frames@));
            }
            if f.next < f.entries.len() {
                let ghost rest_view = entries_view(f.entries@.skip(f.next + 1));
                assert(entries_view(f.entries@.skip(f.next as int)) =~= seq![entry_view(f.entries@[f.next as int])] + rest_view);
                let e = f.entries[f.next].duplicate();
                let ghost k = f.next as int;
                assert(!self.exclusions.excludes(f.entries@[k].name@));
                f.next = f.next + 1;
                let go_down = self.recursive && e.is_dir;
                let rel = if go_down {
                    chars_of(e.path.as_str())
                } else {
                    Vec::new()
                };
                let idx = self.entries.len();
                let ghost old_entries = self.entries@;
                let ghost old_parents = self.parents@;
                self.entries.push(e);
                self.parents = Ghost(self.parents@.push(f.parent@));
                proof {
                    assert(self.entries@ =~= old_entries.push(self.entries@[idx as int]));
                    assert forall|q: int| 0 <= q < self.entries@.len() implies #[trigger] entry_placed(
                        self.entries@,
                        self.parents@,
                        self.start@,
                        q,
                    ) by {
                        if q < idx {
                            assert(self.entries@[q] == old_entries[q]);
                            assert(entry_placed(old_entries, old_parents, self.start@, q));
                            let p = old_parents[q];
                            if p != -1 {
                                assert(self.entries@[p] == old_entries[p]);
                            }
                        } else {
                            let p = f.parent@;
                            if p != -1 {
                                assert(self.entries@[p] == old_entries[p]);
                            }
                        }
                    }
                    assert forall|g: int| 0 <= g < self.frames@.len() implies frame_ok(
                        self.entries@,
                        self.start@,
                        self.exclusions,
                        #[trigger] self.frames@[g],
                    ) by {
                        assert(frame_ok(old_entries, self.start@, self.exclusions, self.frames@[g]));
                        let p = self.frames@[g].parent@;
                        if p != -1 {
                            assert(self.entries@[p] == old_entries[p]);
                        }
                    }
                }
                assert(frame_ok(self.entries@, self.start@, self.exclusions, f)) by {
                    let p = f.parent@;
                    if p != -1 {
                        assert(self.entries@[p] == old_entries[p]);
                    }
                }
                self.frames.push(f);
                proof {
                    assert forall|g: int| 0 <= g < self.frames@.len() implies frame_ok(
                        self.entries@,
                        self.start@,
                        self.exclusions,
                        #[trigger] self.frames@[g],
                    ) by {
                        if g < self.frames@.len() - 1 {
                            assert(self.frames@[g] == frames0[g]);
                        }
                    }
                    assert(self.frames@.drop_last() =~= frames0.drop_last());
                    assert(pending(self.frames@) < pending(frames0));
                    assert(queue(self.frames@) == rest_view + queue(frames0.drop_last()));
                    assert(entries_view(self.entries@) =~= view0.push(entry_view(self.entries@[idx as int])));
                    assert(entries_view(self.entries@) + queue(self.frames@) =~= view0 + queue(frames0));
                }
                if go_down {
                    let full = absolute_from(self.root.as_slice(), rel.as_slice());
                    self.awaiting = Some((rel, Ghost(idx as int)));
                    return WalkStep::ReadDir(string_of(full.as_slice()));
                }
            }
        }
    }
}

} // verus!
