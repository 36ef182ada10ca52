use vstd::prelude::*;

use crate::error::{FsError, FsErrorKind};
use crate::text::{chars_of, lemma_pieces_nonempty, pieces, push_all, string_of};

verus! {

/// The character sequences held by a vector of components.
pub open spec fn comps_view(v: Seq<Vec<char>>) -> Seq<Seq<char>> {
    v.map_values(|c: Vec<char>| c@)
}

/// A piece that names something: not empty, and not the current directory ".".
pub open spec fn names_something(c: Seq<char>) -> bool {
    c.len() > 0 && c != seq!['.']
}

pub open spec fn is_parent_ref(c: Seq<char>) -> bool {
    c == seq!['.', '.']
}

/// The components of a requested relative path: its non-empty pieces other
/// than ".". A leading '/' only yields an empty piece, so a request is always
/// appended to the root and never replaces it.
pub open spec fn request_components(rel: Seq<char>) -> Seq<Seq<char>> {
    pieces(rel, '/').filter(|c: Seq<char>| names_something(c))
}

/// How many levels below its starting point a walk through `cs` ends, each
/// ".." going one level up and every other component one level down.
pub open spec fn climb(cs: Seq<Seq<char>>) -> int
    decreases cs.len(),
{
    if cs.len() == 0 {
        0
    } else {
        climb(cs.drop_last()) + if is_parent_ref(cs.last()) {
            -1int
        } else {
            1int
        }
    }
}

/// Whether some prefix of `cs` climbs above its starting point.
pub open spec fn escapes(cs: Seq<Seq<char>>) -> bool {
    exists|k: int| 0 <= k <= cs.len() && #[trigger] climb(cs.take(k)) < 0
}

/// `name` appended to `base` after one separator.
pub open spec fn child_path(base: Seq<char>, name: Seq<char>) -> Seq<char> {
    if base.len() > 0 && base.last() == '/' {
        base + name
    } else {
        base + seq!['/'] + name
    }
}

pub open spec fn join_path(base: Seq<char>, cs: Seq<Seq<char>>) -> Seq<char>
    decreases cs.len(),
{
    if cs.len() == 0 {
        base
    } else {
        child_path(join_path(base, cs.drop_last()), cs.last())
    }
}

/// Whether `p` is `root` itself or lies below it, component by component.
pub open spec fn within(root: Seq<char>, p: Seq<char>) -> bool {
    p == root || (p.len() > root.len() && p.take(root.len() as int) == root && ((root.len() > 0
        && root.last() == '/') || p[root.len() as int] == '/'))
}

/// A path that has passed the containment check: `path` is `root` or below it.
#[derive(Debug)]
pub struct ResolvedPath {
    pub root: String,
    pub path: String,
}

impl ResolvedPath {
    pub open spec fn contained(&self) -> bool {
        within(self.root@, self.path@)
    }
}

/// What resolution asks for next, or how it ended, over plain values.
pub ghost enum ResolveOutcome {
    Ask(Seq<char>),
    Within(Seq<char>, Seq<char>),
    Fail(FsErrorKind),
}

pub open spec fn settle(root: Seq<char>, p: Seq<char>) -> ResolveOutcome {
    if within(root, p) {
        ResolveOutcome::Within(root, p)
    } else {
        ResolveOutcome::Fail(FsErrorKind::PathTraversal)
    }
}

/// Resolution of `rel` against `root`, given the canonical forms obtained so far,
/// each with whether it names a directory. The first answer is the root's
/// canonical form, which must be a directory; the second that of the root
/// joined with the request; the third, asked only when the second failed, that
/// of the joined path's parent, to which the last component is re-appended.
/// `None` stands for a path that could not be canonicalized.
pub open spec fn resolve_spec(
    root: Seq<char>,
    rel: Seq<char>,
    answers: Seq<Option<(Seq<char>, bool)>>,
) -> ResolveOutcome {
    let cs = request_components(rel);
    if escapes(cs) {
        ResolveOutcome::Fail(FsErrorKind::PathTraversal)
    } else if answers.len() == 0 {
        ResolveOutcome::Ask(root)
    } else {
        match answers[0] {
            None => ResolveOutcome::Fail(FsErrorKind::InvalidRoot),
            Some((rc, root_is_dir)) => if !root_is_dir {
                ResolveOutcome::Fail(FsErrorKind::InvalidRoot)
            } else if answers.len() == 1 {
                ResolveOutcome::Ask(join_path(rc, cs))
            } else {
                match answers[1] {
                    Some((t, _)) => settle(rc, t),
                    None => if cs.len() == 0 {
                        ResolveOutcome::Fail(FsErrorKind::InvalidRoot)
                    } else if answers.len() == 2 {
                        ResolveOutcome::Ask(join_path(rc, cs.drop_last()))
                    } else {
                        match answers[2] {
                            None => ResolveOutcome::Fail(FsErrorKind::InvalidRoot),
                            Some((pc, _)) => if is_parent_ref(cs.last()) {
                                ResolveOutcome::Fail(FsErrorKind::InvalidRoot)
                            } else {
                                settle(rc, child_path(pc, cs.last()))
                            },
                        }
                    },
                }
            },
        }
    }
}

/// The outcome of canonicalizing a path: its canonical form, and whether it
/// names a directory.
#[derive(Debug)]
pub struct Canonical {
    pub path: String,
    pub is_dir: bool,
}

pub open spec fn answers_view(a: Seq<Option<Canonical>>) -> Seq<Option<(Seq<char>, bool)>> {
    a.map_values(
        |x: Option<Canonical>|
            match x {
                Some(c) => Some((c.path@, c.is_dir)),
                None => None,
            },
    )
}

/// One step of resolving a requested path.
#[derive(Debug)]
pub enum ResolveStep {
    /// Canonicalize this path and append the outcome to the answers.
    Canonicalize(String),
    Resolved(ResolvedPath),
    Refused(FsError),
}

impl ResolveStep {
    pub open spec fn view(&self) -> ResolveOutcome {
        match self {
            ResolveStep::Canonicalize(p) => ResolveOutcome::Ask(p@),
            ResolveStep::Resolved(r) => ResolveOutcome::Within(r.root@, r.path@),
            ResolveStep::Refused(e) => ResolveOutcome::Fail(e.kind),
        }
    }
}

proof fn lemma_filter_push(xs: Seq<Seq<char>>, x: Seq<char>)
    ensures
        xs.push(x).filter(|c: Seq<char>| names_something(c)) == if names_something(x) {
            xs.filter(|c: Seq<char>| names_something(c)).push(x)
        } else {
            xs.filter(|c: Seq<char>| names_something(c))
        },
{
    reveal(Seq::filter);
    assert(xs.push(x).drop_last() =~= xs);
}

/// Splits a requested relative path into its components.
fn split_request(rel: &[char]) -> (r: Vec<Vec<char>>)
    ensures
        comps_view(r@) == request_components(rel@),
{
    let mut done: Vec<Vec<char>> = Vec::new();
    let mut cur: Vec<char> = Vec::new();
    let ghost mut raw_done: Seq<Seq<char>> = Seq::empty();
    let mut i: usize = 0;
    while i < rel.len()
        invariant
            i <= rel@.len(),
            pieces(rel@.take(i as int), '/') == raw_done.push(cur@),
            comps_view(done@) == raw_done.filter(|c: Seq<char>| names_something(c)),
        decreases rel@.len() - i,
    {
        let c = rel[i];
        assert(rel@.take(i + 1).drop_last() =~= rel@.take(i as int));
        proof {
            lemma_pieces_nonempty(rel@.take(i as int), '/');
        }
        if c == '/' {
            proof {
                lemma_filter_push(raw_done, cur@);
                raw_done = raw_done.push(cur@);
            }
            if cur.len() > 0 && !(cur.len() == 1 && cur[0] == '.') {
                assert(names_something(cur@));
                done.push(cur);
                assert(comps_view(done@) =~= raw_done.filter(|c: Seq<char>| names_something(c)));
            } else {
                assert(cur@ == seq!['.'] || cur@.len() == 0) by {
                    if cur@.len() == 1 {
                        assert(cur@ =~= seq!['.']);
                    }
                }
            }
            cur = Vec::new();
            assert(pieces(rel@.take(i + 1), '/') =~= raw_done.push(cur@));
        } else {
            cur.push(c);
            assert(pieces(rel@.take(i + 1), '/') =~= raw_done.push(cur@));
        }
        i += 1;
    }
    assert(rel@.take(rel@.len() as int) =~= rel@);
    proof {
        lemma_filter_push(raw_done, cur@);
    }
    if cur.len() > 0 && !(cur.len() == 1 && cur[0] == '.') {
        done.push(cur);
        assert(comps_view(done@) =~= request_components(rel@));
    } else {
        assert(cur@ == seq!['.'] || cur@.len() == 0) by {
            if cur@.len() == 1 {
                assert(cur@ =~= seq!['.']);
            }
        }
    }
    done
}

fn is_parent_component(c: &Vec<char>) -> (r: bool)
    ensures
        r == is_parent_ref(c@),
{
    let r = c.len() == 2 && c[0] == '.' && c[1] == '.';
    assert(r ==> c@ =~= seq!['.', '.']);
    r
}

/// Whether walking through `cs` ever climbs above the starting point.
fn climbs_out(cs: &Vec<Vec<char>>) -> (r: bool)
    ensures
        r == escapes(comps_view(cs@)),
{
    let ghost v = comps_view(cs@);
    let mut depth: usize = 0;
    let mut k: usize = 0;
    assert(v.take(0) =~= Seq::<Seq<char>>::empty());
    while k < cs.len()
        invariant
            v == comps_view(cs@),
            k <= cs@.len(),
            depth as int == climb(v.take(k as int)),
            depth <= k,
            forall|j: int| 0 <= j <= k ==> climb(#[trigger] v.take(j)) >= 0,
        decreases cs@.len() - k,
    {
        assert(v.take(k + 1).drop_last() =~= v.take(k as int));
        if is_parent_component(&cs[k]) {
            if depth == 0 {
                assert(climb(v.take(k + 1)) < 0);
                return true;
            }
            depth -= 1;
        } else {
            depth += 1;
        }
        k += 1;
    }
    assert(v.take(v.len() as int) =~= v);
    false
}

/// Appends `name` to `base` after one separator.
fn child_of(base: &Vec<char>, name: &[char]) -> (r: Vec<char>)
    ensures
        r@ == child_path(base@, name@),
{
    let mut out = base.clone();
    assert(out@ == base@);
    if !(base.len() > 0 && base[base.len() - 1] == '/') {
        out.push('/');
    }
    push_all(&mut out, name);
    assert(out@ =~= child_path(base@, name@));
    out
}

fn join_components(base: &Vec<char>, cs: &Vec<Vec<char>>, count: usize) -> (r: Vec<char>)
    requires
        count <= cs@.len(),
    ensures
        r@ == join_path(base@, comps_view(cs@).take(count as int)),
{
    let ghost v = comps_view(cs@);
    let mut acc = base.clone();
    let mut k: usize = 0;
    assert(v.take(0) =~= Seq::<Seq<char>>::empty());
    while k < count
        invariant
            v == comps_view(cs@),
            count <= cs@.len(),
            k <= count,
            acc@ == join_path(base@, v.take(k as int)),
        decreases count - k,
    {
        assert(v.take(k + 1).drop_last() =~= v.take(k as int));
        acc = child_of(&acc, cs[k].as_slice());
        k += 1;
    }
    acc
}

/// Whether `p` is `root` or below it.
pub fn is_within(root: &[char], p: &[char]) -> (r: bool)
    ensures
        r == within(root@, p@),
{
    if p.len() == root.len() {
        let mut k: usize = 0;
        while k < root.len()
            invariant
                p@.len() == root@.len(),
                k <= root@.len(),
                forall|j: int| 0 <= j < k ==> p@[j] == root@[j],
            decreases root@.len() - k,
        {
            if p[k] != root[k] {
                return false;
            }
            k += 1;
        }
        assert(p@ =~= root@);
        return true;
    }
    if p.len() < root.len() {
        return false;
    }
    let mut k: usize = 0;
    while k < root.len()
        invariant
            p@.len() > root@.len(),
            k <= root@.len(),
            forall|j: int| 0 <= j < k ==> p@[j] == root@[j],
        decreases root@.len() - k,
    {
        if p[k] != root[k] {
            assert(p@.take(root@.len() as int)[k as int] != root@[k as int]);
            return false;
        }
        k += 1;
    }
    assert(p@.take(root@.len() as int) =~= root@);
    (root.len() > 0 && root[root.len() - 1] == '/') || p[root.len()] == '/'
}

fn settle_path(root: &Vec<char>, p: Vec<char>) -> (r: ResolveStep)
    ensures
        r@ == settle(root@, p@),
{
    if is_within(root.as_slice(), p.as_slice()) {
        ResolveStep::Resolved(
            ResolvedPath { root: string_of(root.as_slice()), path: string_of(p.as_slice()) },
        )
    } else {
        ResolveStep::Refused(
            FsError::new(
                FsErrorKind::PathTraversal,
                "Path traversal outside project root is not allowed",
            ),
        )
    }
}

/// Resolves `relative_path` against `project_root`, one canonicalization at a
/// time. `answers` holds the outcomes of the canonicalizations asked for so
/// far, in order; the result is the next one to perform, or the end.
///
/// A request whose ".." components climb above the root is refused before any
/// canonicalization. A root that cannot be canonicalized, or whose canonical
/// form is not a directory, is refused with `InvalidRoot`. A resolved path is
/// always the canonical root or below it, judged after symlinks were resolved.
pub fn resolve_safe_path(
    project_root: &str,
    relative_path: &str,
    answers: &Vec<Option<Canonical>>,
) -> (r: ResolveStep)
    ensures
        r@ == resolve_spec(project_root@, relative_path@, answers_view(answers@)),
{
    let ghost av = answers_view(answers@);
    let rel = chars_of(relative_path);
    let cs = split_request(rel.as_slice());
    if climbs_out(&cs) {
        return ResolveStep::Refused(
            FsError::new(
                FsErrorKind::PathTraversal,
                "Path traversal outside project root is not allowed",
            ),
        );
    }
    if answers.len() == 0 {
        return ResolveStep::Canonicalize(String::from_str(project_root));
    }
    let rc = match &answers[0] {
        None => {
            return ResolveStep::Refused(
                FsError::new(FsErrorKind::InvalidRoot, "Invalid project root"),
            );
        },
        Some(c) => {
            if !c.is_dir {
                return ResolveStep::Refused(
                    FsError::new(FsErrorKind::InvalidRoot, "Project root is not a directory"),
                );
            }
            chars_of(c.path.as_str())
        },
    };
    assert(av[0] == Some((rc@, true)));
    assert(comps_view(cs@).take(cs@.len() as int) =~= comps_view(cs@));
    if answers.len() == 1 {
        let target = join_components(&rc, &cs, cs.len());
        return ResolveStep::Canonicalize(string_of(target.as_slice()));
    }
    match &answers[1] {
        Some(t) => {
            assert(av[1] == Some((t.path@, t.is_dir)));
            settle_path(&rc, chars_of(t.path.as_str()))
        },
        None => {
            if cs.len() == 0 {
                return ResolveStep::Refused(
                    FsError::new(FsErrorKind::InvalidRoot, "Cannot resolve path"),
                );
            }
            let last = cs.len() - 1;
            if answers.len() == 2 {
                let parent = join_components(&rc, &cs, last);
                assert(comps_view(cs@).take(last as int) =~= comps_view(cs@).drop_last());
                return ResolveStep::Canonicalize(string_of(parent.as_slice()));
            }
            match &answers[2] {
                None => ResolveStep::Refused(
                    FsError::new(FsErrorKind::InvalidRoot, "Parent directory does not exist"),
                ),
                Some(pc) => {
                    assert(av[2] == Some((pc.path@, pc.is_dir)));
                    if is_parent_component(&cs[last]) {
                        return ResolveStep::Refused(
                            FsError::new(FsErrorKind::InvalidRoot, "Invalid file name"),
                        );
                    }
                    let pcv = chars_of(pc.path.as_str());
                    settle_path(&rc, child_of(&pcv, cs[last].as_slice()))
                },
            }
        },
    }
}

proof fn lemma_pieces_concat(a: Seq<char>, b: Seq<char>)
    ensures
        pieces(a + seq!['/'] + b, '/') == pieces(a, '/') + pieces(b, '/'),
    decreases b.len(),
{
    let s = a + seq!['/'] + b;
    if b.len() == 0 {
        assert(s.drop_last() =~= a);
        assert(pieces(s, '/') =~= pieces(a, '/') + pieces(b, '/'));
    } else {
        let b0 = b.drop_last();
        assert(s.drop_last() =~= a + seq!['/'] + b0);
        lemma_pieces_concat(a, b0);
        lemma_pieces_nonempty(b0, '/');
        assert(pieces(s, '/') =~= pieces(a, '/') + pieces(b, '/'));
    }
}

proof fn lemma_pieces_single(w: Seq<char>)
    requires
        forall|i: int| 0 <= i < w.len() ==> w[i] != '/',
    ensures
        pieces(w, '/') == seq![w],
    decreases w.len(),
{
    if w.len() == 0 {
        assert(w =~= Seq::<char>::empty());
        assert(pieces(w, '/') =~= seq![w]);
    } else {
        assert(w[w.len() - 1] != '/');
        assert forall|i: int| 0 <= i < w.drop_last().len() implies w.drop_last()[i] != '/' by {
            assert(w.drop_last()[i] == w[i]);
        }
        lemma_pieces_single(w.drop_last());
        assert(w.drop_last().push(w.last()) =~= w);
        assert(pieces(w, '/') =~= seq![w]);
    }
}

proof fn lemma_components_concat(a: Seq<char>, b: Seq<char>)
    ensures
        request_components(a + seq!['/'] + b) == request_components(a) + request_components(b),
{
    lemma_pieces_concat(a, b);
    Seq::filter_distributes_over_add(
        pieces(a, '/'),
        pieces(b, '/'),
        |c: Seq<char>| names_something(c),
    );
}

proof fn lemma_components_single(w: Seq<char>)
    requires
        names_something(w),
        forall|i: int| 0 <= i < w.len() ==> w[i] != '/',
    ensures
        request_components(w) == seq![w],
{
    lemma_pieces_single(w);
    reveal(Seq::filter);
    assert(seq![w].drop_last() =~= Seq::<Seq<char>>::empty());
}

proof fn lemma_parent_ref_components()
    ensures
        request_components(seq!['.', '.']) == seq![seq!['.', '.']],
{
    let d = seq!['.', '.'];
    assert(d.len() == 2 && d != seq!['.']) by {
        assert(d.len() != seq!['.'].len());
    }
    lemma_components_single(d);
}

/// A request that starts by leaving the root refuses before anything is canonicalized.
proof fn lemma_escape_refused(root: Seq<char>, rel: Seq<char>, answers: Seq<Option<(Seq<char>, bool)>>, k: int)
    requires
        0 <= k <= request_components(rel).len(),
        climb(request_components(rel).take(k)) < 0,
    ensures
        resolve_spec(root, rel, answers) == ResolveOutcome::Fail(FsErrorKind::PathTraversal),
{
}

/// A resolved path is the canonical root or lies below it: the root's string
/// is a prefix of the resolved string, and a strict one unless the two are
/// the same path.
pub proof fn lemma_resolved_extends_root(
    root: Seq<char>,
    rel: Seq<char>,
    answers: Seq<Option<(Seq<char>, bool)>>,
)
    ensures
        match resolve_spec(root, rel, answers) {
            ResolveOutcome::Within(rc, p) => {
                &&& answers.len() >= 2
                &&& answers[0] == Some((rc, true))
                &&& p.len() >= rc.len()
                &&& p.take(rc.len() as int) == rc
                &&& p != rc ==> p.len() > rc.len()
            },
            _ => true,
        },
{
    match resolve_spec(root, rel, answers) {
        ResolveOutcome::Within(rc, p) => {
            if p == rc {
                assert(p.take(rc.len() as int) =~= rc);
            }
        },
        _ => {},
    }
}

/// A root that is missing or is not a directory is refused as invalid,
/// whatever is asked below it, unless the request already leaves the root.
pub proof fn lemma_non_directory_root_refused(
    root: Seq<char>,
    rel: Seq<char>,
    answers: Seq<Option<(Seq<char>, bool)>>,
)
    requires
        answers.len() >= 1,
        !escapes(request_components(rel)),
        answers[0] matches Some((_, is_dir)) ==> !is_dir,
    ensures
        resolve_spec(root, rel, answers) == ResolveOutcome::Fail(FsErrorKind::InvalidRoot),
{
}

/// A request that begins with "../" is refused as a traversal, whatever the
/// root and whatever canonicalization would report.
pub proof fn lemma_leading_parent_refused(
    root: Seq<char>,
    rest: Seq<char>,
    answers: Seq<Option<(Seq<char>, bool)>>,
)
    ensures
        resolve_spec(root, seq!['.', '.', '/'] + rest, answers) == ResolveOutcome::Fail(
            FsErrorKind::PathTraversal,
        ),
{
    let d = seq!['.', '.'];
    let rel = seq!['.', '.', '/'] + rest;
    assert(rel =~= d + seq!['/'] + rest);
    lemma_components_concat(d, rest);
    lemma_parent_ref_components();
    let cs = request_components(rel);
    assert(cs.take(1) =~= seq![d]);
    assert(cs.take(1).drop_last() =~= Seq::<Seq<char>>::empty());
    assert(climb(Seq::<Seq<char>>::empty()) == 0);
    assert(is_parent_ref(cs.take(1).last()));
    assert(climb(cs.take(1)) == -1);
    lemma_escape_refused(root, rel, answers, 1);
}

/// A request that names one directory and then climbs two levels is refused
/// as a traversal, whether or not anything it names exists.
pub proof fn lemma_climb_past_root_refused(
    root: Seq<char>,
    dir: Seq<char>,
    rest: Seq<char>,
    answers: Seq<Option<(Seq<char>, bool)>>,
)
    requires
        names_something(dir),
        !is_parent_ref(dir),
        forall|i: int| 0 <= i < dir.len() ==> dir[i] != '/',
    ensures
        resolve_spec(
            root,
            dir + seq!['/', '.', '.', '/', '.', '.', '/'] + rest,
            answers,
        ) == ResolveOutcome::Fail(FsErrorKind::PathTraversal),
{
    let d = seq!['.', '.'];
    let rel = dir + seq!['/', '.', '.', '/', '.', '.', '/'] + rest;
    let tail2 = d + seq!['/'] + rest;
    let tail1 = d + seq!['/'] + tail2;
    assert(rel =~= dir + seq!['/'] + tail1);
    lemma_components_concat(dir, tail1);
    lemma_components_concat(d, tail2);
    lemma_components_concat(d, rest);
    lemma_parent_ref_components();
    lemma_components_single(dir);
    let cs = request_components(rel);
    assert(cs =~= seq![dir, d, d] + request_components(rest));
    assert(cs.take(3).drop_last() =~= seq![dir, d]);
    assert(cs.take(2).drop_last() =~= seq![dir]);
    assert(seq![dir].drop_last() =~= Seq::<Seq<char>>::empty());
    assert(climb(Seq::<Seq<char>>::empty()) == 0);
    assert(climb(seq![dir]) == 1);
    assert(seq![dir, d].drop_last() =~= seq![dir]);
    assert(climb(seq![dir, d]) == 0);
    assert(cs.take(3) =~= seq![dir, d, d]);
    assert(seq![dir, d, d].drop_last() =~= seq![dir, d]);
    assert(seq![dir, d].drop_last() =~= seq![dir]);
    assert(climb(cs.take(3)) == -1);
    lemma_escape_refused(root, rel, answers, 3);
}

} // verus!
