use vstd::prelude::*;

use crate::error::{FsError, FsErrorKind};
use crate::text::{chars_of, occurs_at, push_all, push_range, string_of};

verus! {

/// Whether `p` occurs in `s` starting at position `k`.
pub open spec fn occurs(s: Seq<char>, p: Seq<char>, k: int) -> bool {
    0 <= k && k + p.len() <= s.len() && s.subrange(k, k + p.len()) == p
}

/// The number of non-overlapping occurrences of `p` in `s` from position `i`
/// on, found left to right, each search resuming after the previous match.
/// An empty `p` occurs at every position, the end included.
pub open spec fn occurrences_from(s: Seq<char>, p: Seq<char>, i: int) -> nat
    decreases s.len() + 1 - i,
{
    if i < 0 || i + p.len() > s.len() {
        0
    } else if p.len() == 0 {
        (s.len() + 1 - i) as nat
    } else if occurs(s, p, i) {
        1 + occurrences_from(s, p, i + p.len())
    } else {
        occurrences_from(s, p, i + 1)
    }
}

pub open spec fn occurrences(s: Seq<char>, p: Seq<char>) -> nat {
    occurrences_from(s, p, 0)
}

/// The leftmost position from `i` on at which `p` occurs, or -1.
pub open spec fn first_from(s: Seq<char>, p: Seq<char>, i: int) -> int
    decreases s.len() + 1 - i,
{
    if i < 0 || i + p.len() > s.len() {
        -1
    } else if occurs(s, p, i) {
        i
    } else {
        first_from(s, p, i + 1)
    }
}

/// `s` with the piece of length `len` at `k` replaced by `r`.
pub open spec fn splice(s: Seq<char>, k: int, len: int, r: Seq<char>) -> Seq<char> {
    s.take(k) + r + s.skip(k + len)
}

/// The outcome of replacing `old` by `new` in `content`: the new content when
/// `old` occurs exactly once, else the kind of refusal.
pub open spec fn edit_outcome(content: Seq<char>, old: Seq<char>, new: Seq<char>) -> Result<
    Seq<char>,
    FsErrorKind,
> {
    let n = occurrences(content, old);
    if n == 0 {
        Err(FsErrorKind::EditNotFound)
    } else if n >= 2 {
        Err(FsErrorKind::AmbiguousEdit)
    } else {
        Ok(splice(content, first_from(content, old, 0), old.len() as int, new))
    }
}

proof fn lemma_first_from_found(s: Seq<char>, p: Seq<char>, i: int)
    requires
        i >= 0,
        occurrences_from(s, p, i) >= 1,
    ensures
        first_from(s, p, i) >= i,
        occurs(s, p, first_from(s, p, i)),
    decreases s.len() + 1 - i,
{
    if p.len() == 0 {
        assert(s.subrange(i, i) =~= p);
    } else if !occurs(s, p, i) {
        lemma_first_from_found(s, p, i + 1);
    }
}

proof fn lemma_some_occurrence_counts(s: Seq<char>, p: Seq<char>, i: int, j: int)
    requires
        0 <= i <= j,
        p.len() > 0,
        occurs(s, p, j),
    ensures
        occurrences_from(s, p, i) >= 1,
    decreases j - i,
{
    if !occurs(s, p, i) {
        lemma_some_occurrence_counts(s, p, i + 1, j);
    }
}

proof fn lemma_two_occurrences_count(s: Seq<char>, p: Seq<char>, i: int, j1: int, j2: int)
    requires
        0 <= i <= j1,
        j1 + p.len() <= j2,
        p.len() > 0,
        occurs(s, p, j1),
        occurs(s, p, j2),
    ensures
        occurrences_from(s, p, i) >= 2,
    decreases j1 - i,
{
    if occurs(s, p, i) {
        lemma_some_occurrence_counts(s, p, i + p.len(), j2);
    } else {
        lemma_two_occurrences_count(s, p, i + 1, j1, j2);
    }
}

/// The number of non-overlapping occurrences, counted up to two, and the
/// leftmost position of one.
fn count_up_to_two(s: &[char], p: &[char]) -> (r: (usize, usize))
    ensures
        r.0 as nat == if occurrences(s@, p@) >= 2 {
            2
        } else {
            occurrences(s@, p@)
        },
        r.0 >= 1 ==> r.1 as int == first_from(s@, p@, 0),
{
    if p.len() > s.len() {
        return (0, 0);
    }
    if p.len() == 0 {
        assert(occurs(s@, p@, 0)) by {
            assert(s@.subrange(0, 0) =~= p@);
        }
        if s.len() == 0 {
            return (1, 0);
        }
        return (2, 0);
    }
    let mut found: usize = 0;
    let mut first: usize = 0;
    let mut i: usize = 0;
    while i <= s.len() - p.len()
        invariant
            p@.len() > 0,
            p@.len() <= s@.len(),
            found <= 1,
            occurrences(s@, p@) == found + occurrences_from(s@, p@, i as int),
            found == 0 ==> first_from(s@, p@, 0) == first_from(s@, p@, i as int),
            found == 1 ==> first_from(s@, p@, 0) == first as int,
        decreases s@.len() + 1 - i,
    {
        if occurs_at(s, p, i) {
            if found == 0 {
                first = i;
            }
            found += 1;
            if found == 2 {
                return (2, first);
            }
            i += p.len();
        } else {
            i += 1;
        }
    }
    (found, first)
}

/// The message of an ambiguous edit, which asks for more surrounding context.
pub open spec fn ambiguous_edit_message() -> Seq<char> {
    "old_text found more than once; it must be unique. Provide more surrounding context."@
}

/// Replaces the one occurrence of `old_text` in `content` by `new_text`.
/// Refused with `EditNotFound` when `old_text` does not occur, and with
/// `AmbiguousEdit` when it occurs more than once, counting non-overlapping
/// occurrences; in both cases no new content is produced.
pub fn plan_edit(content: &str, old_text: &str, new_text: &str) -> (r: Result<String, FsError>)
    ensures
        match r {
            Ok(u) => edit_outcome(content@, old_text@, new_text@) == Ok::<Seq<char>, FsErrorKind>(u@),
            Err(e) => edit_outcome(content@, old_text@, new_text@) == Err::<Seq<char>, FsErrorKind>(e.kind),
        },
        r matches Err(e) ==> (e.kind == FsErrorKind::AmbiguousEdit ==> e.message@
            == ambiguous_edit_message()),
{
    let s = chars_of(content);
    let p = chars_of(old_text);
    let (n, k) = count_up_to_two(s.as_slice(), p.as_slice());
    if n == 0 {
        return Err(FsError::new(FsErrorKind::EditNotFound, "old_text not found in file"));
    }
    if n >= 2 {
        return Err(
            FsError::new(
                FsErrorKind::AmbiguousEdit,
                "old_text found more than once; it must be unique. Provide more surrounding context.",
            ),
        );
    }
    proof {
        lemma_first_from_found(s@, p@, 0);
        assert(occurs(s@, p@, k as int));
    }
    let n = s.len();
    assert(k + p@.len() <= n);
    let mut out: Vec<char> = Vec::new();
    push_range(&mut out, s.as_slice(), 0, k);
    push_all(&mut out, chars_of(new_text).as_slice());
    push_range(&mut out, s.as_slice(), k + p.len(), n);
    assert(out@ =~= splice(s@, k as int, p@.len() as int, new_text@));
    Ok(string_of(out.as_slice()))
}

/// When `old` occurs twice without overlap, the edit is refused as ambiguous.
pub proof fn lemma_twice_is_ambiguous(
    content: Seq<char>,
    old: Seq<char>,
    new: Seq<char>,
    i: int,
    j: int,
)
    requires
        old.len() > 0,
        occurs(content, old, i),
        occurs(content, old, j),
        i + old.len() <= j,
    ensures
        edit_outcome(content, old, new) == Err::<Seq<char>, FsErrorKind>(FsErrorKind::AmbiguousEdit),
{
    lemma_two_occurrences_count(content, old, 0, i, j);
}

/// When `old` occurs exactly once, the edit replaces that occurrence and keeps
/// everything before and after it as it was.
pub proof fn lemma_unique_edit_keeps_rest(content: Seq<char>, old: Seq<char>, new: Seq<char>)
    requires
        occurrences(content, old) == 1,
    ensures
        exists|before: Seq<char>, after: Seq<char>|
            #![trigger before + old + after]
            content == before + old + after && edit_outcome(content, old, new) == Ok::<
                Seq<char>,
                FsErrorKind,
            >(before + new + after),
{
    lemma_first_from_found(content, old, 0);
    let k = first_from(content, old, 0);
    let before = content.take(k);
    let after = content.skip(k + old.len());
    assert(content =~= before + old + after);
}

} // verus!
