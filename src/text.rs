use vstd::prelude::*;

verus! {

/// The pieces of `s` between `sep` separators, empty pieces included.
pub open spec fn pieces(s: Seq<char>, sep: char) -> Seq<Seq<char>>
    decreases s.len(),
{
    if s.len() == 0 {
        seq![Seq::empty()]
    } else {
        let init = pieces(s.drop_last(), sep);
        if s.last() == sep {
            init.push(Seq::empty())
        } else {
            init.update(init.len() - 1, init.last().push(s.last()))
        }
    }
}

pub proof fn lemma_pieces_nonempty(s: Seq<char>, sep: char)
    ensures
        pieces(s, sep).len() >= 1,
    decreases s.len(),
{
    if s.len() > 0 {
        lemma_pieces_nonempty(s.drop_last(), sep);
    }
}

/// Relies on `str::chars`, collected into a vector: the characters of `s`, in order.
#[verifier::external_body]
pub(crate) fn chars_of(s: &str) -> (r: Vec<char>)
    ensures
        r@ == s@,
{
    s.chars().collect()
}

/// Relies on `String`'s `FromIterator<&char>`: the string made of the given characters.
#[verifier::external_body]
pub(crate) fn string_of(cs: &[char]) -> (r: String)
    ensures
        r@ == cs@,
{
    cs.iter().collect()
}

/// Whether `cs[start..start + p.len()]` spells `p`.
pub(crate) fn occurs_at(cs: &[char], p: &[char], start: usize) -> (r: bool)
    requires
        start + p@.len() <= cs@.len(),
    ensures
        r == (cs@.subrange(start as int, start + p@.len()) == p@),
{
    let n = cs.len();
    let mut k: usize = 0;
    while k < p.len()
        invariant
            n == cs@.len(),
            start + p@.len() <= cs@.len(),
            k <= p@.len(),
            start + k <= cs@.len(),
            forall|j: int| 0 <= j < k ==> cs@[start + j] == p@[j],
        decreases p@.len() - k,
    {
        if cs[start + k] != p[k] {
            assert(cs@.subrange(start as int, start + p@.len())[k as int] != p@[k as int]);
            return false;
        }
        k += 1;
    }
    assert(cs@.subrange(start as int, start + p@.len()) =~= p@);
    true
}

/// Appends the characters of `extra` to `acc`.
pub(crate) fn push_all(acc: &mut Vec<char>, extra: &[char])
    ensures
        final(acc)@ == old(acc)@ + extra@,
{
    let mut k: usize = 0;
    while k < extra.len()
        invariant
            k <= extra@.len(),
            acc@ == old(acc)@ + extra@.take(k as int),
        decreases extra@.len() - k,
    {
        acc.push(extra[k]);
        assert(extra@.take(k + 1) =~= extra@.take(k as int).push(extra@[k as int]));
        k += 1;
    }
    assert(extra@.take(extra@.len() as int) =~= extra@);
}

/// Appends `src[from..to]` to `acc`.
pub(crate) fn push_range(acc: &mut Vec<char>, src: &[char], from: usize, to: usize)
    requires
        from <= to <= src@.len(),
    ensures
        final(acc)@ == old(acc)@ + src@.subrange(from as int, to as int),
{
    let mut k: usize = from;
    while k < to
        invariant
            from <= k <= to <= src@.len(),
            acc@ == old(acc)@ + src@.subrange(from as int, k as int),
        decreases to - k,
    {
        acc.push(src[k]);
        assert(src@.subrange(from as int, k + 1) =~= src@.subrange(from as int, k as int).push(
            src@[k as int],
        ));
        k += 1;
    }
}

} // verus!
