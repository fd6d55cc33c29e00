//! Character sequences: occurrence of one text in another, and replacement of
//! every occurrence. All contracts are stated over `Seq<char>`, the view of a
//! `str`; the executable functions work on `Vec<char>` so that a position is
//! reached in constant time.

use vstd::prelude::*;

verus! {

/// `String::push` appends one character.
pub assume_specification[ String::push ](s: &mut String, c: char)
    ensures
        final(s)@ == old(s)@.push(c),
;

/// `p` stands in `s` at position `i`.
pub open spec fn occurs_at(s: Seq<char>, p: Seq<char>, i: int) -> bool {
    0 <= i && i + p.len() <= s.len() && s.subrange(i, i + p.len()) == p
}

/// `p` stands somewhere in `s`. The empty text stands in every text.
pub open spec fn contains(s: Seq<char>, p: Seq<char>) -> bool {
    exists|i: int| occurs_at(s, p, i)
}

/// `s` begins with `p`.
pub open spec fn starts_with(s: Seq<char>, p: Seq<char>) -> bool {
    occurs_at(s, p, 0)
}

/// `s` ends with `p`.
pub open spec fn ends_with(s: Seq<char>, p: Seq<char>) -> bool {
    occurs_at(s, p, s.len() - p.len())
}

/// `s` with every occurrence of `p` replaced by `r`, reading from the left and
/// resuming after each occurrence, so that occurrences that overlap an earlier
/// one are not replaced. An empty `p` replaces nothing.
pub open spec fn replace_all(s: Seq<char>, p: Seq<char>, r: Seq<char>) -> Seq<char>
    decreases s.len(),
{
    if p.len() == 0 || s.len() < p.len() {
        s
    } else if occurs_at(s, p, 0) {
        r + replace_all(s.skip(p.len() as int), p, r)
    } else {
        s.take(1) + replace_all(s.skip(1), p, r)
    }
}

/// The characters of a string.
pub fn to_chars(s: &str) -> (v: Vec<char>)
    ensures
        v@ == s@,
{
    let mut v: Vec<char> = Vec::new();
    for c in it: s.chars()
        invariant
            it.seq() == s@,
            v@ == it.seq().take(it.index() as int),
    {
        v.push(c);
    }
    v
}

/// The string made of the given characters.
pub fn from_chars(v: &Vec<char>) -> (s: String)
    ensures
        s@ == v@,
{
    let mut s = String::new();
    let mut i: usize = 0;
    while i < v.len()
        invariant
            i <= v.len(),
            s@ == v@.take(i as int),
        decreases v.len() - i,
    {
        s.push(v[i]);
        i += 1;
    }
    s
}

/// Appends the characters of `tail` to `out`.
pub fn append_chars(out: &mut Vec<char>, tail: &Vec<char>)
    ensures
        final(out)@ == old(out)@ + tail@,
{
    let mut i: usize = 0;
    while i < tail.len()
        invariant
            i <= tail.len(),
            out@ == old(out)@ + tail@.take(i as int),
        decreases tail.len() - i,
    {
        out.push(tail[i]);
        i += 1;
    }
}

/// Whether `p` stands in `s` at position `i`.
pub fn matches_at(s: &Vec<char>, p: &Vec<char>, i: usize) -> (r: bool)
    ensures
        r == occurs_at(s@, p@, i as int),
{
    if i > s.len() || p.len() > s.len() - i {
        return false;
    }
    let mut k: usize = 0;
    while k < p.len()
        invariant
            i + p.len() <= s.len(),
            k <= p.len(),
            forall|j: int| 0 <= j < k ==> s@[i + j] == p@[j],
        decreases p.len() - k,
    {
        if s[i + k] != p[k] {
            assert(s@.subrange(i as int, i + p.len())[k as int] != p@[k as int]);
            return false;
        }
        k += 1;
    }
    assert(s@.subrange(i as int, i + p.len()) =~= p@);
    true
}

/// Whether `p` stands somewhere in `s`.
pub fn contains_chars(s: &Vec<char>, p: &Vec<char>) -> (r: bool)
    ensures
        r == contains(s@, p@),
{
    let mut i: usize = 0;
    while i < s.len()
        invariant
            i <= s.len(),
            forall|j: int| 0 <= j < i ==> !occurs_at(s@, p@, j),
        decreases s.len() - i,
    {
        if matches_at(s, p, i) {
            return true;
        }
        i += 1;
    }
    matches_at(s, p, i)
}

/// Whether `s` begins with `p`.
pub fn starts_with_chars(s: &Vec<char>, p: &Vec<char>) -> (r: bool)
    ensures
        r == starts_with(s@, p@),
{
    matches_at(s, p, 0)
}

/// Whether `s` ends with `p`.
pub fn ends_with_chars(s: &Vec<char>, p: &Vec<char>) -> (r: bool)
    ensures
        r == ends_with(s@, p@),
{
    if p.len() > s.len() {
        return false;
    }
    matches_at(s, p, s.len() - p.len())
}

/// A text shorter than the pattern holds no occurrence of it, whichever way
/// it is read.
proof fn lemma_replace_all_short(s: Seq<char>, p: Seq<char>, r: Seq<char>)
    requires
        p.len() == 0 || s.len() < p.len(),
    ensures
        replace_all(s, p, r) == s,
{
}

/// `s` with every occurrence of `p` replaced by `r`.
pub fn replace_all_chars(s: &Vec<char>, p: &Vec<char>, r: &Vec<char>) -> (out: Vec<char>)
    ensures
        out@ == replace_all(s@, p@, r@),
{
    let mut out: Vec<char> = Vec::new();
    let mut i: usize = 0;
    proof {
        assert(s@.skip(0) =~= s@);
        assert(out@ + replace_all(s@, p@, r@) =~= replace_all(s@, p@, r@));
    }
    while i < s.len()
        invariant
            i <= s.len(),
            out@ + replace_all(s@.skip(i as int), p@, r@) == replace_all(s@, p@, r@),
        decreases s.len() - i,
    {
        let ghost rest = s@.skip(i as int);
        if p.len() > 0 && matches_at(s, p, i) {
            proof {
                assert(rest.subrange(0, p@.len() as int) =~= s@.subrange(
                    i as int,
                    i + p@.len(),
                ));
                assert(rest.skip(p@.len() as int) =~= s@.skip(i + p@.len()));
                assert(out@ + (r@ + replace_all(rest.skip(p@.len() as int), p@, r@)) =~= (out@
                    + r@) + replace_all(rest.skip(p@.len() as int), p@, r@));
            }
            append_chars(&mut out, r);
            i += p.len();
        } else {
            proof {
                assert(rest.skip(1) =~= s@.skip(i + 1));
                assert(rest.take(1) =~= seq![s@[i as int]]);
                if p@.len() == 0 || rest.len() < p@.len() {
                    lemma_replace_all_short(rest.skip(1), p@, r@);
                    assert(rest =~= rest.take(1) + rest.skip(1));
                } else {
                    assert(rest.subrange(0, p@.len() as int) =~= s@.subrange(
                        i as int,
                        i + p@.len(),
                    ));
                }
                assert(out@ + (rest.take(1) + replace_all(rest.skip(1), p@, r@)) =~= out@.push(
                    s@[i as int],
                ) + replace_all(rest.skip(1), p@, r@));
            }
            out.push(s[i]);
            i += 1;
        }
    }
    proof {
        assert(s@.skip(s@.len() as int) =~= Seq::<char>::empty());
        assert(out@ + Seq::<char>::empty() =~= out@);
    }
    out
}

/// A text that begins with `v` has the characters of `v` in its first places.
pub proof fn lemma_prefix_chars(y: Seq<char>, v: Seq<char>, i: int)
    requires
        starts_with(y, v),
        0 <= i < v.len(),
    ensures
        i < y.len(),
        y[i] == v[i],
{
    assert(y.subrange(0, v.len() as int)[i] == y[i]);
}

/// Where `p` does not occur, nothing is replaced.
pub proof fn lemma_replace_all_without_occurrence(s: Seq<char>, p: Seq<char>, r: Seq<char>)
    requires
        forall|i: int| !occurs_at(s, p, i),
    ensures
        replace_all(s, p, r) == s,
    decreases s.len(),
{
    if p.len() == 0 {
        assert(s.subrange(0, 0) =~= p);
        assert(occurs_at(s, p, 0));
    } else if s.len() >= p.len() {
        assert(!occurs_at(s, p, 0));
        let rest = s.skip(1);
        assert forall|i: int| !occurs_at(rest, p, i) by {
            if occurs_at(rest, p, i) {
                assert(rest.subrange(i, i + p.len()) =~= s.subrange(i + 1, i + 1 + p.len()));
                assert(occurs_at(s, p, i + 1));
            }
        }
        lemma_replace_all_without_occurrence(rest, p, r);
        assert(s.take(1) + rest =~= s);
    }
}

/// Text behind the last occurrence of `p` is kept as it is: where every
/// occurrence of `p` in `a + m` lies within `a`, replacing in `a + m` is
/// replacing in `a`.
pub proof fn lemma_replace_all_keeps_tail(a: Seq<char>, m: Seq<char>, p: Seq<char>, r: Seq<char>)
    requires
        p.len() > 0,
        forall|i: int| occurs_at(a + m, p, i) ==> i + p.len() <= a.len(),
    ensures
        replace_all(a + m, p, r) == replace_all(a, p, r) + m,
    decreases a.len(),
{
    let s = a + m;
    if a.len() < p.len() {
        assert forall|i: int| !occurs_at(s, p, i) by {}
        lemma_replace_all_without_occurrence(s, p, r);
    } else if occurs_at(s, p, 0) {
        assert(a.subrange(0, p.len() as int) =~= s.subrange(0, p.len() as int));
        assert(occurs_at(a, p, 0));
        let a1 = a.skip(p.len() as int);
        assert(s.skip(p.len() as int) =~= a1 + m);
        assert forall|i: int| occurs_at(a1 + m, p, i) implies i + p.len() <= a1.len() by {
            assert((a1 + m).subrange(i, i + p.len()) =~= s.subrange(
                i + p.len(),
                i + p.len() + p.len(),
            ));
            assert(occurs_at(s, p, i + p.len()));
        }
        lemma_replace_all_keeps_tail(a1, m, p, r);
        assert(r + (replace_all(a1, p, r) + m) =~= (r + replace_all(a1, p, r)) + m);
    } else {
        assert(a.subrange(0, p.len() as int) =~= s.subrange(0, p.len() as int));
        assert(!occurs_at(a, p, 0));
        let a1 = a.skip(1);
        assert(s.skip(1) =~= a1 + m);
        assert(s.take(1) =~= a.take(1));
        assert forall|i: int| occurs_at(a1 + m, p, i) implies i + p.len() <= a1.len() by {
            assert((a1 + m).subrange(i, i + p.len()) =~= s.subrange(i + 1, i + 1 + p.len()));
            assert(occurs_at(s, p, i + 1));
        }
        lemma_replace_all_keeps_tail(a1, m, p, r);
        assert(a.take(1) + (replace_all(a1, p, r) + m) =~= (a.take(1) + replace_all(a1, p, r))
            + m);
    }
}

} // verus!
