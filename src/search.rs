use vstd::prelude::*;

use crate::error::{FsError, FsErrorKind};
use crate::path::{comps_view, is_within, ResolvedPath};
use crate::pattern::{lowercase, lowercase_of, pattern_matches, pattern_compiles, LineMatcher};
use crate::text::{chars_of, lemma_pieces_nonempty, pieces, string_of};
use crate::walk::{
    absolute_from, absolute_of, rel_child, rel_child_of, relative_of, relative_to, ChildMeta,
    DirChild, ExclusionSet,
};

verus! {

/// The most results one search returns.
pub const RESULT_CAP: usize = 100;

/// Files larger than this many bytes are passed over.
pub const MAX_FILE_SIZE: u64 = 1000000;

/// One matching line: the file relative to the root, its 1-based line number
/// and its text without the line ending.
#[derive(Debug)]
pub struct SearchResult {
    pub file: String,
    pub line: usize,
    pub content: String,
}

/// `s` without its leading '*' characters.
pub open spec fn trim_stars(s: Seq<char>) -> Seq<char>
    decreases s.len(),
{
    if s.len() > 0 && s[0] == '*' {
        trim_stars(s.drop_first())
    } else {
        s
    }
}

pub open spec fn has_suffix(s: Seq<char>, suffix: Seq<char>) -> bool {
    suffix.len() <= s.len() && s.skip(s.len() - suffix.len()) == suffix
}

/// Whether a file name passes the filename filter `glob`: a suffix match,
/// without regard to case, after the filter's leading '*'s are dropped.
pub open spec fn glob_admits(name: Seq<char>, glob: Seq<char>) -> bool {
    has_suffix(lowercase_of(name), lowercase_of(trim_stars(glob)))
}

/// Drops the leading '*'s of a filename filter.
pub fn trim_leading_stars(glob: &str) -> (r: String)
    ensures
        r@ == trim_stars(glob@),
{
    let cs = chars_of(glob);
    let mut i: usize = 0;
    assert(cs@.skip(0) =~= cs@);
    while i < cs.len() && cs[i] == '*'
        invariant
            i <= cs@.len(),
            trim_stars(cs@) == trim_stars(cs@.skip(i as int)),
        decreases cs@.len() - i,
    {
        assert(cs@.skip(i as int).drop_first() =~= cs@.skip(i + 1));
        i += 1;
    }
    assert(trim_stars(cs@.skip(i as int)) == cs@.skip(i as int));
    string_of(cs.as_slice().split_at(i).1)
}

/// Whether the lowered file name ends with the lowered filter.
pub fn suffix_matches(lowered_name: &str, lowered_suffix: &str) -> (r: bool)
    ensures
        r == has_suffix(lowered_name@, lowered_suffix@),
{
    let n = chars_of(lowered_name);
    let p = chars_of(lowered_suffix);
    if p.len() > n.len() {
        return false;
    }
    let nl = n.len();
    let off = nl - p.len();
    let mut k: usize = 0;
    while k < p.len()
        invariant
            n@ == lowered_name@,
            p@ == lowered_suffix@,
            nl == n@.len(),
            off + p@.len() == n@.len(),
            k <= p@.len(),
            forall|j: int| 0 <= j < k ==> n@[off + j] == p@[j],
        decreases p@.len() - k,
    {
        if n[off + k] != p[k] {
            assert(n@.skip(off as int)[k as int] == n@[off + k]);
            assert(n@.skip(off as int) != p@);
            assert(!has_suffix(n@, p@));
            return false;
        }
        k += 1;
    }
    assert(n@.skip(off as int) =~= p@);
    true
}

/// Whether `name` passes the filename filter `glob`.
pub fn glob_accepts(name: &str, glob: &str) -> (r: bool)
    ensures
        r == glob_admits(name@, glob@),
{
    let trimmed = trim_leading_stars(glob);
    let lowered_suffix = lowercase(trimmed.as_str());
    let lowered_name = lowercase(name);
    suffix_matches(lowered_name.as_str(), lowered_suffix.as_str())
}

/// `l` without one trailing carriage return.
pub open spec fn strip_cr(l: Seq<char>) -> Seq<char> {
    if l.len() > 0 && l.last() == '\r' {
        l.drop_last()
    } else {
        l
    }
}

/// The lines of `s`: split at each '\n', a '\r' before the '\n' dropped, and
/// no empty last line after a final line ending.
pub open spec fn lines_of(s: Seq<char>) -> Seq<Seq<char>> {
    let ps = pieces(s, '\n');
    let ended = ps.drop_last().map_values(|l: Seq<char>| strip_cr(l));
    if ps.last().len() == 0 {
        ended
    } else {
        ended.push(ps.last())
    }
}

pub fn split_lines(s: &[char]) -> (r: Vec<Vec<char>>)
    ensures
        comps_view(r@) == lines_of(s@),
{
    let mut done: Vec<Vec<char>> = Vec::new();
    let mut cur: Vec<char> = Vec::new();
    let ghost mut raw_done: Seq<Seq<char>> = Seq::empty();
    let mut i: usize = 0;
    while i < s.len()
        invariant
            i <= s@.len(),
            pieces(s@.take(i as int), '\n') == raw_done.push(cur@),
            comps_view(done@) == raw_done.map_values(|l: Seq<char>| strip_cr(l)),
        decreases s@.len() - i,
    {
        let c = s[i];
        assert(s@.take(i + 1).drop_last() =~= s@.take(i as int));
        proof {
            lemma_pieces_nonempty(s@.take(i as int), '\n');
        }
        if c == '\n' {
            let ghost whole = cur@;
            let ghost raw0 = raw_done;
            let ghost done0 = done@;
            proof {
                raw_done = raw_done.push(cur@);
            }
            let mut line = cur;
            if line.len() > 0 && line[line.len() - 1] == '\r' {
                line.pop();
            }
            assert(line@ =~= strip_cr(whole));
            done.push(line);
            assert(done@ =~= done0.push(line));
            assert(comps_view(done@) =~= comps_view(done0).push(strip_cr(whole)));
            assert(raw_done.map_values(|l: Seq<char>| strip_cr(l)) =~= raw0.map_values(
                |l: Seq<char>| strip_cr(l),
            ).push(strip_cr(whole)));
            cur = Vec::new();
            assert(pieces(s@.take(i + 1), '\n') =~= raw_done.push(cur@));
        } else {
            cur.push(c);
            assert(pieces(s@.take(i + 1), '\n') =~= raw_done.push(cur@));
        }
        i += 1;
    }
    assert(s@.take(s@.len() as int) =~= s@);
    assert(pieces(s@, '\n').drop_last() =~= raw_done);
    if cur.len() > 0 {
        done.push(cur);
    }
    assert(comps_view(done@) =~= lines_of(s@));
    done
}

/// The matching lines among `lines`, each with its 1-based number.
pub open spec fn hits(pattern: Seq<char>, lines: Seq<Seq<char>>) -> Seq<(int, Seq<char>)>
    decreases lines.len(),
{
    if lines.len() == 0 {
        Seq::empty()
    } else {
        let h = hits(pattern, lines.drop_last());
        if pattern_matches(pattern, lines.last()) {
            h.push((lines.len() as int, lines.last()))
        } else {
            h
        }
    }
}

proof fn lemma_hits_prefix(pattern: Seq<char>, lines: Seq<Seq<char>>, m: int)
    requires
        0 <= m <= lines.len(),
    ensures
        hits(pattern, lines.take(m)).len() <= hits(pattern, lines).len(),
        hits(pattern, lines.take(m)) == hits(pattern, lines).take(
            hits(pattern, lines.take(m)).len() as int,
        ),
    decreases lines.len(),
{
    if m == lines.len() {
        assert(lines.take(m) =~= lines);
        assert(hits(pattern, lines).take(hits(pattern, lines).len() as int) =~= hits(
            pattern,
            lines,
        ));
    } else {
        let init = lines.drop_last();
        assert(init.take(m) =~= lines.take(m));
        lemma_hits_prefix(pattern, init, m);
        let a = hits(pattern, lines.take(m));
        assert(hits(pattern, init).take(a.len() as int) =~= hits(pattern, lines).take(
            a.len() as int,
        ));
    }
}

/// `n`, but at most `room`.
pub open spec fn capped(n: int, room: int) -> int {
    if n <= room {
        n
    } else {
        room
    }
}

pub open spec fn result_view(r: SearchResult) -> (int, Seq<char>) {
    (r.line as int, r.content@)
}

/// Appends to `results` the lines of `lines` that `m` matches, as results for
/// `file`, in order, stopping as soon as `results` holds `cap` of them.
pub fn scan_lines(
    m: &LineMatcher,
    file: &Vec<char>,
    lines: &Vec<Vec<char>>,
    results: &mut Vec<SearchResult>,
    cap: usize,
)
    requires
        old(results)@.len() <= cap,
    ensures
        final(results)@.len() == old(results)@.len() + capped(
            hits(m.pattern(), comps_view(lines@)).len() as int,
            cap - old(results)@.len(),
        ),
        final(results)@.take(old(results)@.len() as int) == old(results)@,
        forall|i: int|
            old(results)@.len() <= i < final(results)@.len() ==> #[trigger] result_view(
                final(results)@[i],
            ) == hits(m.pattern(), comps_view(lines@))[i - old(results)@.len()],
        forall|i: int|
            old(results)@.len() <= i < final(results)@.len() ==> (#[trigger] final(results)@[i]).file@
                == file@,
{
    let ghost lv = comps_view(lines@);
    let ghost pat = m.pattern();
    let ghost start = results@.len() as int;
    let ghost before = results@;
    let mut k: usize = 0;
    assert(lv.take(0) =~= Seq::<Seq<char>>::empty());
    assert(results@.take(start) =~= before);
    while k < lines.len() && results.len() < cap
        invariant
            lv == comps_view(lines@),
            pat == m.pattern(),
            start == old(results)@.len(),
            before == old(results)@,
            start <= cap,
            k <= lines@.len(),
            results@.len() == start + hits(pat, lv.take(k as int)).len(),
            results@.len() <= cap,
            results@.take(start) == before,
            forall|j: int|
                0 <= j < results@.len() - start ==> #[trigger] result_view(results@[start + j])
                    == hits(pat, lv.take(k as int))[j] && results@[start + j].file@ == file@,
        decreases lines@.len() - k,
    {
        assert(lv.take(k + 1).drop_last() =~= lv.take(k as int));
        let line = string_of(lines[k].as_slice());
        let ghost prev = results@;
        let hit = m.is_match(line.as_str());
        assert(lv.take(k + 1).last() == line@);
        assert(hits(pat, lv.take(k + 1)) == if hit {
            hits(pat, lv.take(k as int)).push(((k + 1) as int, line@))
        } else {
            hits(pat, lv.take(k as int))
        });
        if hit {
            results.push(SearchResult { file: string_of(file.as_slice()), line: k + 1, content: line });
            assert(results@.take(start) =~= before) by {
                assert(prev.take(start) == before);
            }
            assert forall|j: int| 0 <= j < results@.len() - start implies #[trigger] result_view(results@[start + j])
                == hits(pat, lv.take(k + 1))[j] && results@[start + j].file@ == file@ by {
                if start + j < prev.len() {
                    assert(results@[start + j] == prev[start + j]);
                }
            }
        }
        k += 1;
    }
    proof {
        lemma_hits_prefix(pat, lv, k as int);
        let h = hits(pat, lv);
        let hk = hits(pat, lv.take(k as int));
        if k == lines.len() {
            assert(lv.take(k as int) =~= lv);
        }
        assert(hk.len() == capped(h.len() as int, cap - start));
        assert forall|i: int| start <= i < results@.len() implies #[trigger] result_view(results@[i]) == h[i - start] && results@[i].file@ == file@ by {
            let j = i - start;
            assert(result_view(results@[start + j]) == hk[j]);
            assert(h.take(hk.len() as int)[j] == h[j]);
        }
        assert forall|i: int| start <= i < results@.len() implies (#[trigger] results@[i]).file@ == file@ by {
            assert(result_view(results@[start + (i - start)]) == hk[i - start]);
        }
    }
}

proof fn lemma_hits_match(pattern: Seq<char>, lines: Seq<Seq<char>>)
    ensures
        forall|j: int|
            0 <= j < hits(pattern, lines).len() ==> pattern_matches(
                pattern,
                #[trigger] hits(pattern, lines)[j].1,
            ),
    decreases lines.len(),
{
    if lines.len() > 0 {
        let init = lines.drop_last();
        lemma_hits_match(pattern, init);
        let h = hits(pattern, init);
        assert forall|j: int| 0 <= j < hits(pattern, lines).len() implies pattern_matches(
            pattern,
            #[trigger] hits(pattern, lines)[j].1,
        ) by {
            if j < h.len() {
                assert(hits(pattern, lines)[j] == h[j]);
            }
        }
    }
}

/// Whether `name` is hidden: it starts with '.'.
pub open spec fn is_hidden(name: Seq<char>) -> bool {
    name.len() > 0 && name[0] == '.'
}

fn starts_with_dot(name: &str) -> (r: bool)
    ensures
        r == is_hidden(name@),
{
    let cs = chars_of(name);
    cs.len() > 0 && cs[0] == '.'
}

struct SearchFrame {
    rel: Vec<char>,
    children: Vec<DirChild>,
    next: usize,
}

enum Awaited {
    Nothing,
    Dir(Vec<char>),
    File(Vec<char>, Ghost<Seq<char>>),
}

/// One step of a search.
#[derive(Debug)]
pub enum SearchStep {
    /// Enumerate this directory and hand its children to `advance_dir`.
    ReadDir(String),
    /// Read this file as text and hand the outcome to `advance_file`.
    ReadFile(String),
    Finished(Result<Vec<SearchResult>, FsError>),
}

/// A depth-first search for matching lines, driven one read at a time.
pub struct SearchEngine {
    root: Vec<char>,
    matcher: LineMatcher,
    suffix: Option<String>,
    exclusions: ExclusionSet,
    frames: Vec<SearchFrame>,
    awaited: Awaited,
    results: Vec<SearchResult>,
}

/// A child waiting to be looked at: its directory relative to the root, its
/// name, and its metadata if that could be read.
pub type Pending = (Seq<char>, Seq<char>, Option<ChildMeta>);

pub open spec fn pending_view(rel: Seq<char>, c: DirChild) -> Pending {
    (rel, c.name@, c.meta)
}

spec fn frame_queue(f: SearchFrame) -> Seq<Pending> {
    f.children@.skip(f.next as int).map_values(|c: DirChild| pending_view(f.rel@, c))
}

/// The children still to be looked at, the innermost directory's first.
spec fn squeue(fs: Seq<SearchFrame>) -> Seq<Pending>
    decreases fs.len(),
{
    if fs.len() == 0 {
        Seq::empty()
    } else {
        frame_queue(fs.last()) + squeue(fs.drop_last())
    }
}

spec fn frames_left(fs: Seq<SearchFrame>) -> nat
    decreases fs.len(),
{
    if fs.len() == 0 {
        0
    } else if fs.last().next <= fs.last().children@.len() {
        frames_left(fs.drop_last()) + 1 + (fs.last().children@.len() - fs.last().next) as nat
    } else {
        frames_left(fs.drop_last()) + 1
    }
}

pub open spec fn glob_passes(suffix: Option<Seq<char>>, name: Seq<char>) -> bool {
    match suffix {
        Some(g) => has_suffix(lowercase_of(name), g),
        None => true,
    }
}

/// Whether the search passes over a child without reading anything: its name
/// is excluded or hidden, it is a symbolic link (which could lead out of the
/// root), or it is a file that fails the filename filter or exceeds the size
/// limit.
pub open spec fn passed_over(v: Pending, excl: ExclusionSet, suffix: Option<Seq<char>>) -> bool {
    excl.excludes(v.1) || is_hidden(v.1) || match v.2 {
        Some(m) => m.is_link || (!m.is_dir && (!glob_passes(suffix, v.1) || m.size
            > MAX_FILE_SIZE)),
        None => false,
    }
}

pub open spec fn results_view(rs: Seq<SearchResult>) -> Seq<(Seq<char>, int, Seq<char>)> {
    rs.map_values(|r: SearchResult| (r.file@, r.line as int, r.content@))
}

/// Matching lines as results for `file`.
pub open spec fn as_results(file: Seq<char>, hs: Seq<(int, Seq<char>)>) -> Seq<
    (Seq<char>, int, Seq<char>),
> {
    hs.map_values(|h: (int, Seq<char>)| (file, h.0, h.1))
}

/// A search never holds more than `RESULT_CAP` results: when the matching
/// lines of the file just read would go past that number, exactly
/// `RESULT_CAP` results come out of it, and the search ends there.
pub proof fn lemma_results_capped(
    found: Seq<(Seq<char>, int, Seq<char>)>,
    file: Seq<char>,
    h: Seq<(int, Seq<char>)>,
)
    requires
        found.len() < RESULT_CAP,
    ensures
        ({
            let now = found + as_results(
                file,
                h.take(capped(h.len() as int, RESULT_CAP - found.len())),
            );
            &&& now.len() <= RESULT_CAP
            &&& found.len() + h.len() >= RESULT_CAP ==> now.len() == RESULT_CAP
            &&& found.len() + h.len() < RESULT_CAP ==> now.len() == found.len() + h.len()
        }),
{
}

/// Every result is a line that `pattern` matches.
pub open spec fn all_match(rs: Seq<SearchResult>, pattern: Seq<char>) -> bool {
    forall|i: int| 0 <= i < rs.len() ==> pattern_matches(pattern, #[trigger] rs[i].content@)
}

/// How a search goes on from the queue `q`, having found `found`: children
/// passed over are dropped, and the first other one decides. A directory is
/// enumerated, a file is read, and a child whose metadata could not be read
/// ends the search with what was found; so does the end of the queue.
pub open spec fn follows_queue(
    q: Seq<Pending>,
    found: Seq<(Seq<char>, int, Seq<char>)>,
    eng: SearchEngine,
    r: SearchStep,
) -> bool {
    let c = q.len() - eng.queued().len();
    let excl = eng.exclusion_set();
    let sfx = eng.glob_suffix();
    match r {
        SearchStep::ReadDir(p) => {
            &&& 1 <= c <= q.len()
            &&& eng.queued() == q.skip(c)
            &&& forall|k: int| 0 <= k < c - 1 ==> passed_over(#[trigger] q[k], excl, sfx)
            &&& !passed_over(q[c - 1], excl, sfx)
            &&& q[c - 1].2 matches Some(m) && m.is_dir
            &&& eng.awaits_dir()
            &&& eng.awaited_path() == rel_child(q[c - 1].0, q[c - 1].1)
            &&& p@ == absolute_of(eng.root_dir(), eng.awaited_path())
            &&& results_view(eng.found()) == found
        },
        SearchStep::ReadFile(p) => {
            &&& 1 <= c <= q.len()
            &&& eng.queued() == q.skip(c)
            &&& forall|k: int| 0 <= k < c - 1 ==> passed_over(#[trigger] q[k], excl, sfx)
            &&& !passed_over(q[c - 1], excl, sfx)
            &&& q[c - 1].2 matches Some(m) && !m.is_dir
            &&& eng.awaits_file()
            &&& eng.awaited_path() == rel_child(q[c - 1].0, q[c - 1].1)
            &&& eng.awaited_name() == q[c - 1].1
            &&& p@ == absolute_of(eng.root_dir(), eng.awaited_path())
            &&& results_view(eng.found()) == found
        },
        SearchStep::Finished(Ok(rs)) => {
            &&& results_view(rs@) == found
            &&& (forall|k: int| 0 <= k < q.len() ==> passed_over(#[trigger] q[k], excl, sfx))
                || exists|j: int|
                0 <= j < q.len() && (forall|k: int|
                    0 <= k < j ==> passed_over(#[trigger] q[k], excl, sfx)) && !passed_over(
                    q[j],
                    excl,
                    sfx,
                ) && q[j].2 is None
        },
        SearchStep::Finished(Err(_)) => false,
    }
}

impl SearchEngine {
    pub closed spec fn pattern(&self) -> Seq<char> {
        self.matcher.pattern()
    }

    /// The results found so far.
    pub closed spec fn found(&self) -> Seq<SearchResult> {
        self.results@
    }

    /// The lowered filename suffix that files must end with, if any.
    pub closed spec fn glob_suffix(&self) -> Option<Seq<char>> {
        match self.suffix {
            Some(s) => Some(s@),
            None => None,
        }
    }

    pub closed spec fn exclusion_set(&self) -> ExclusionSet {
        self.exclusions
    }

    pub closed spec fn root_dir(&self) -> Seq<char> {
        self.root@
    }

    /// The children read but not yet looked at, in the order they will be.
    pub closed spec fn queued(&self) -> Seq<Pending> {
        squeue(self.frames@)
    }

    pub closed spec fn awaits_dir(&self) -> bool {
        self.awaited is Dir
    }

    pub closed spec fn awaits_file(&self) -> bool {
        self.awaited is File
    }

    /// The root-relative path of the directory or file whose reading was asked for.
    pub closed spec fn awaited_path(&self) -> Seq<char> {
        match self.awaited {
            Awaited::Dir(rel) => rel@,
            Awaited::File(rel, _) => rel@,
            Awaited::Nothing => Seq::empty(),
        }
    }

    /// The name of the file whose reading was asked for.
    pub closed spec fn awaited_name(&self) -> Seq<char> {
        match self.awaited {
            Awaited::File(_, n) => n@,
            _ => Seq::empty(),
        }
    }

    pub closed spec fn wf(&self) -> bool {
        &&& self.results@.len() < RESULT_CAP
        &&& all_match(self.results@, self.matcher.pattern())
        &&& forall|i: int|
            0 <= i < self.frames@.len() ==> #[trigger] self.frames@[i].next <= self.frames@[i].children@.len()
    }

    pub fn is_waiting_for_dir(&self) -> (r: bool)
        ensures
            r == self.awaits_dir(),
    {
        match self.awaited {
            Awaited::Dir(_) => true,
            _ => false,
        }
    }

    pub fn is_waiting_for_file(&self) -> (r: bool)
        ensures
            r == self.awaits_file(),
    {
        match self.awaited {
            Awaited::File(_, _) => true,
            _ => false,
        }
    }

    /// Begins a search for `pattern` below `dir`, the resolved search root.
    /// The pattern is compiled first; then the resolution's own failure, a
    /// path outside its root, or a path that is not a directory end the search.
    pub fn start(
        pattern: &str,
        dir: Result<ResolvedPath, FsError>,
        is_dir: bool,
        glob: Option<String>,
        exclusions: ExclusionSet,
    ) -> (r: (Option<SearchEngine>, SearchStep))
        ensures
            !pattern_compiles(pattern@) ==> (r.0 is None && (r.1 matches SearchStep::Finished(
                Err(e),
            ) && e.kind == FsErrorKind::InvalidPattern)),
            match dir {
                Err(d) => pattern_compiles(pattern@) ==> (r.0 is None && (r.1 matches SearchStep::Finished(
                    Err(e),
                ) && e.kind == d.kind)),
                Ok(d) => pattern_compiles(pattern@) ==> {
                    &&& !d.contained() ==> (r.0 is None && (r.1 matches SearchStep::Finished(Err(e))
                        && e.kind == FsErrorKind::PathTraversal))
                    &&& d.contained() && !is_dir ==> (r.0 is None && (r.1 matches SearchStep::Finished(
                        Err(e),
                    ) && e.kind == FsErrorKind::NotADirectory))
                    &&& d.contained() && is_dir ==> (r.0 matches Some(eng) && (r.1 matches SearchStep::ReadDir(
                        p,
                    ) && p@ == d.path@ && eng.wf() && eng.awaits_dir() && eng.found().len() == 0
                        && eng.queued().len() == 0 && eng.root_dir() == d.root@
                        && eng.awaited_path() == relative_of(d.root@, d.path@)
                        && eng.pattern() == pattern@ && eng.exclusion_set() == exclusions
                        && eng.glob_suffix() == match glob {
                        Some(g) => Some(lowercase_of(trim_stars(g@))),
                        None => None::<Seq<char>>,
                    }))
                },
            },
    {
        let matcher = match LineMatcher::compile(pattern) {
            Ok(m) => m,
            Err(why) => {
                let message = String::from_str("Invalid regex: ").concat(why.as_str());
                let e = FsError { kind: FsErrorKind::InvalidPattern, message };
                return (None, SearchStep::Finished(Err(e)));
            },
        };
        let d = match dir {
            Err(e) => {
                return (None, SearchStep::Finished(Err(e)));
            },
            Ok(d) => d,
        };
        let root = chars_of(d.root.as_str());
        let path = chars_of(d.path.as_str());
        if !is_within(root.as_slice(), path.as_slice()) {
            let e = FsError::new(
                FsErrorKind::PathTraversal,
                "Path traversal outside project root is not allowed",
            );
            return (None, SearchStep::Finished(Err(e)));
        }
        if !is_dir {
            let e = FsError::new(FsErrorKind::NotADirectory, "Search path is not a directory");
            return (None, SearchStep::Finished(Err(e)));
        }
        let suffix = match glob {
            Some(g) => {
                let trimmed = trim_leading_stars(g.as_str());
                Some(lowercase(trimmed.as_str()))
            },
            None => None,
        };
        let rel = relative_to(root.as_slice(), path.as_slice());
        let eng = SearchEngine {
            root,
            matcher,
            suffix,
            exclusions,
            frames: Vec::new(),
            awaited: Awaited::Dir(rel),
            results: Vec::new(),
        };
        assert(eng.queued() =~= Seq::empty());
        (Some(eng), SearchStep::ReadDir(d.path))
    }

    fn finish(&mut self) -> (r: SearchStep)
        ensures
            final(self).matcher == old(self).matcher,
            final(self).exclusions == old(self).exclusions,
            final(self).suffix == old(self).suffix,
            final(self).root == old(self).root,
            final(self).frames == old(self).frames,
            final(self).awaited == old(self).awaited,
            final(self).results@.len() == 0,
            r matches SearchStep::Finished(Ok(rs)) && rs@ == old(self).results@,
    {
        let mut out: Vec<SearchResult> = Vec::new();
        std::mem::swap(&mut out, &mut self.results);
        SearchStep::Finished(Ok(out))
    }

    /// Takes the enumeration of the directory asked for last, puts its
    /// children at the front of the queue, and goes on to the next read. A
    /// failed enumeration ends the search with the results found so far.
    pub fn advance_dir(&mut self, listing: Result<Vec<DirChild>, String>) -> (r: SearchStep)
        requires
            old(self).wf(),
            old(self).awaits_dir(),
        ensures
            final(self).wf(),
            final(self).pattern() == old(self).pattern(),
            final(self).exclusion_set() == old(self).exclusion_set(),
            final(self).glob_suffix() == old(self).glob_suffix(),
            final(self).root_dir() == old(self).root_dir(),
            r matches SearchStep::Finished(res) ==> res matches Ok(rs) && rs@.len() < RESULT_CAP
                && all_match(rs@, old(self).pattern()),
            match listing {
                Err(_) => r matches SearchStep::Finished(Ok(rs)) && results_view(rs@) == results_view(
                    old(self).found(),
                ),
                Ok(children) => follows_queue(
                    children@.map_values(|c: DirChild| pending_view(old(self).awaited_path(), c))
                        + old(self).queued(),
                    results_view(old(self).found()),
                    *final(self),
                    r,
                ),
            },
    {
        let mut taken = Awaited::Nothing;
        std::mem::swap(&mut taken, &mut self.awaited);
        let rel = match taken {
            Awaited::Dir(rel) => rel,
            _ => Vec::new(),
        };
        match listing {
            Err(_) => self.finish(),
            Ok(children) => {
                let ghost q0 = squeue(self.frames@);
                let ghost frames0 = self.frames@;
                let frame = SearchFrame { rel, children, next: 0 };
                self.frames.push(frame);
                proof {
                    assert(self.frames@.drop_last() =~= frames0);
                    assert(forall|i: int| 0 <= i < frames0.len() ==> self.frames@[i] == frames0[i]);
                    assert(frame.children@.skip(0) =~= frame.children@);
                    assert(squeue(self.frames@) == frame_queue(frame) + q0);
                }
                self.drain()
            },
        }
    }

    /// Takes the text of the file asked for last, `None` when it could not be
    /// read as text, and goes on to the next read. The file's matching lines
    /// are added in order; the search ends the moment the results reach
    /// `RESULT_CAP`.
    pub fn advance_file(&mut self, content: Option<String>) -> (r: SearchStep)
        requires
            old(self).wf(),
            old(self).awaits_file(),
        ensures
            final(self).wf(),
            final(self).pattern() == old(self).pattern(),
            final(self).exclusion_set() == old(self).exclusion_set(),
            final(self).glob_suffix() == old(self).glob_suffix(),
            final(self).root_dir() == old(self).root_dir(),
            r matches SearchStep::Finished(res) ==> res matches Ok(rs) && rs@.len() <= RESULT_CAP
                && all_match(rs@, old(self).pattern()),
            ({
                let h = match content {
                    Some(text) => hits(old(self).pattern(), lines_of(text@)),
                    None => Seq::empty(),
                };
                let n = capped(h.len() as int, RESULT_CAP - old(self).found().len());
                let now = results_view(old(self).found()) + as_results(
                    old(self).awaited_path(),
                    h.take(n),
                );
                if now.len() >= RESULT_CAP {
                    r matches SearchStep::Finished(Ok(rs)) && results_view(rs@) == now
                } else {
                    follows_queue(old(self).queued(), now, *final(self), r)
                }
            }),
    {
        let mut taken = Awaited::Nothing;
        std::mem::swap(&mut taken, &mut self.awaited);
        let rel = match taken {
            Awaited::File(rel, _) => rel,
            _ => Vec::new(),
        };
        let ghost before = self.results@;
        if let Some(text) = content {
            let cs = chars_of(text.as_str());
            let lines = split_lines(cs.as_slice());
            scan_lines(&self.matcher, &rel, &lines, &mut self.results, RESULT_CAP);
            proof {
                let h = hits(self.matcher.pattern(), comps_view(lines@));
                lemma_hits_match(self.matcher.pattern(), comps_view(lines@));
                let n = capped(h.len() as int, RESULT_CAP - before.len());
                assert forall|i: int| 0 <= i < self.results@.len() implies pattern_matches(
                    self.matcher.pattern(),
                    #[trigger] self.results@[i].content@,
                ) by {
                    if i < before.len() {
                        assert(self.results@.take(before.len() as int)[i] == before[i]);
                        assert(self.results@[i] == before[i]);
                    } else {
                        let j = i - before.len();
                        assert(result_view(self.results@[i]) == h[j]);
                        assert(self.results@[i].content@ == h[j].1);
                        assert(pattern_matches(self.matcher.pattern(), h[j].1));
                    }
                }
                assert forall|i: int| 0 <= i < self.results@.len() implies #[trigger] results_view(
                    self.results@,
                )[i] == (results_view(before) + as_results(rel@, h.take(n)))[i] by {
                    if i < before.len() {
                        assert(self.results@.take(before.len() as int)[i] == before[i]);
                        assert(self.results@[i] == before[i]);
                    } else {
                        assert(result_view(self.results@[i]) == h[i - before.len()]);
                    }
                }
                assert(results_view(self.results@) =~= results_view(before) + as_results(
                    rel@,
                    h.take(n),
                ));
            }
            if self.results.len() >= RESULT_CAP {
                return self.finish();
            }
        } else {
            assert(results_view(self.results@) =~= results_view(before) + as_results(
                rel@,
                Seq::<(int, Seq<char>)>::empty().take(0),
            ));
        }
        self.drain()
    }

    fn drain(&mut self) -> (r: SearchStep)
        requires
            old(self).wf(),
            old(self).awaited is Nothing,
        ensures
            final(self).wf(),
            final(self).matcher == old(self).matcher,
            final(self).exclusions == old(self).exclusions,
            final(self).suffix == old(self).suffix,
            final(self).root == old(self).root,
            r matches SearchStep::Finished(res) ==> res matches Ok(rs) && rs@.len() < RESULT_CAP
                && all_match(rs@, old(self).matcher.pattern()),
            follows_queue(squeue(old(self).frames@), results_view(old(self).results@), *final(self), r),
    {
        let ghost q = squeue(self.frames@);
        let ghost mut c: int = 0;
        loop
            invariant
                self.wf(),
                self.awaited is Nothing,
                self.matcher == old(self).matcher,
                self.exclusions == old(self).exclusions,
                self.suffix == old(self).suffix,
                self.root == old(self).root,
                self.results == old(self).results,
                q == squeue(old(self).frames@),
                0 <= c <= q.len(),
                squeue(self.frames@) == q.skip(c),
                forall|k: int|
                    0 <= k < c ==> passed_over(#[trigger] q[k], self.exclusions, self.glob_suffix()),
            decreases frames_left(self.frames@),
        {
            let ghost frames0 = self.frames@;
            let mut f = match self.frames.pop() {
                None => {
                    assert(q.skip(c).len() == 0);
                    return self.finish();
                },
                Some(f) => f,
            };
            assert(self.frames@ =~= frames0.drop_last());
            assert(f == frames0.last());
            assert(f.next <= f.children@.len()) by {
                assert(frames0[frames0.len() - 1].next <= frames0[frames0.len() - 1].children@.len());
            }
            assert(forall|i: int| 0 <= i < self.frames@.len() ==> self.frames@[i] == frames0[i]);
            assert(squeue(frames0) == frame_queue(f) + squeue(self.frames@));
            if f.next >= f.children.len() {
                assert(frame_queue(f) =~= Seq::empty());
                assert(squeue(self.frames@) =~= q.skip(c));
            } else {
                let ghost item = pending_view(f.rel@, f.children@[f.next as int]);
                let name = f.children[f.next].name.clone();
                let meta = f.children[f.next].meta;
                let ghost f0 = f;
                f.next = f.next + 1;
                assert(frame_queue(f0) =~= seq![item] + frame_queue(f));
                let rel = {
                    let nc = chars_of(name.as_str());
                    rel_child_of(f.rel.as_slice(), nc.as_slice())
                };
                self.frames.push(f);
                proof {
                    assert(self.frames@.drop_last() =~= frames0.drop_last());
                    assert(forall|i: int| 0 <= i < frames0.len() - 1 ==> self.frames@[i] == frames0[i]);
                    assert(squeue(self.frames@) == frame_queue(f) + squeue(frames0.drop_last()));
                    assert(q.skip(c) == seq![item] + squeue(self.frames@));
                    assert(q[c] == item) by {
                        assert(q.skip(c)[0] == q[c]);
                    }
                    assert(q.skip(c + 1) =~= squeue(self.frames@)) by {
                        assert(q.skip(c + 1) =~= q.skip(c).drop_first());
                    }
                    c = c + 1;
                }
                let skipped_name = self.exclusions.contains(&name) || starts_with_dot(name.as_str());
                if !skipped_name {
                    match meta {
                        None => {
                            assert(!passed_over(q[c - 1], self.exclusions, self.glob_suffix()));
                            assert(q[c - 1].2 is None);
                            let r = self.finish();
                            return r;
                        },
                        Some(m) => {
                            let full = absolute_from(self.root.as_slice(), rel.as_slice());
                            if m.is_link {
                                continue;
                            }
                            if m.is_dir {
                                self.awaited = Awaited::Dir(rel);
                                return SearchStep::ReadDir(string_of(full.as_slice()));
                            }
                            let passes = match &self.suffix {
                                Some(sfx) => {
                                    let lowered = lowercase(name.as_str());
                                    suffix_matches(lowered.as_str(), sfx.as_str())
                                },
                                None => true,
                            };
                            if passes && m.size <= MAX_FILE_SIZE {
                                self.awaited = Awaited::File(rel, Ghost(name@));
                                return SearchStep::ReadFile(string_of(full.as_slice()));
                            }
                        },
                    }
                }
            }
        }
    }
}

} // verus!
