//! Rewriting a rewritten document changes nothing, as long as no key and no
//! link target holds a square bracket.
//!
//! With a bracket in a target, a written link can hold a reference of its
//! own, which the next rewriting would find: the law is stated without such
//! indexes.

use crate::link::{link_target, link_text};
use crate::reference::{
    closes_at, is_reference, lemma_reference_closes_once, lemma_reference_spans,
    lemma_reference_text, opens_at, plain_between, reference_spans, reference_starts_at,
    reference_text, references_in, ReferenceText,
};
use crate::rewrite::{
    lemma_unresolved_references_change_nothing, resolve_one, resolves, rewritten,
};
use crate::text::{
    lemma_prefix_chars, lemma_replace_all_keeps_tail, occurs_at, replace_all, starts_with,
};
use vstd::prelude::*;

verus! {

/// `s` holds no square bracket.
pub open spec fn bracket_free(s: Seq<char>) -> bool {
    forall|i: int| 0 <= i < s.len() ==> s[i] != '[' && s[i] != ']'
}

/// The reference that names `key`.
pub open spec fn token(key: Seq<char>) -> Seq<char> {
    seq!['[', '['] + key + seq![']', ']']
}

/// The characters of a token, place by place.
pub proof fn lemma_token_shape(key: Seq<char>)
    ensures
        token(key).len() == key.len() + 4,
        token(key)[0] == '[',
        token(key)[1] == '[',
        forall|i: int| 0 <= i < key.len() ==> token(key)[2 + i] == key[i],
        token(key)[key.len() as int + 2] == ']',
        token(key)[key.len() as int + 3] == ']',
{
}

/// The characters of a link, place by place.
pub proof fn lemma_link_shape(key: Seq<char>, target: Seq<char>)
    ensures
        link_text(key, target).len() == key.len() + target.len() + 4,
        link_text(key, target)[0] == '[',
        forall|i: int| 0 <= i < key.len() ==> link_text(key, target)[1 + i] == key[i],
        link_text(key, target)[key.len() as int + 1] == ']',
        link_text(key, target)[key.len() as int + 2] == '(',
        forall|i: int|
            0 <= i < target.len() ==> link_text(key, target)[key.len() as int + 3 + i] == target[i],
        link_text(key, target)[key.len() as int + target.len() + 3] == ')',
{
}

/// No token, and no part of a token that is cut off at its front, begins a
/// text that begins with a link.
pub proof fn lemma_link_begins_no_token(
    y: Seq<char>,
    key: Seq<char>,
    target: Seq<char>,
    other: Seq<char>,
    d: int,
)
    requires
        bracket_free(key),
        bracket_free(target),
        bracket_free(other),
        0 <= d < token(other).len(),
        starts_with(y, link_text(key, target)),
    ensures
        !starts_with(y, token(other).skip(d)),
{
    let link = link_text(key, target);
    let w = token(other);
    let v = w.skip(d);
    lemma_token_shape(other);
    lemma_link_shape(key, target);
    if starts_with(y, v) {
        if d == 0 {
            lemma_prefix_chars(y, v, 1);
            lemma_prefix_chars(y, link, 1);
            if key.len() > 0 {
                assert(link[1] == key[0]);
            }
        } else if d == 1 {
            if other.len() < key.len() {
                lemma_prefix_chars(y, v, 1 + other.len() as int);
                lemma_prefix_chars(y, link, 1 + other.len() as int);
                assert(link[1 + other.len() as int] == key[other.len() as int]);
            } else if other.len() > key.len() {
                lemma_prefix_chars(y, v, 1 + key.len() as int);
                lemma_prefix_chars(y, link, 1 + key.len() as int);
                assert(v[1 + key.len() as int] == other[key.len() as int]);
            } else {
                lemma_prefix_chars(y, v, 2 + key.len() as int);
                lemma_prefix_chars(y, link, 2 + key.len() as int);
            }
        } else {
            lemma_prefix_chars(y, v, 0);
            lemma_prefix_chars(y, link, 0);
            if d < 2 + other.len() {
                assert(v[0] == other[d - 2]);
            }
        }
    }
}

/// Where the text after replacing begins with a token, or with a token cut off
/// at its front, so did the text before, and what follows the token is what
/// replacing gives for what followed it before.
pub proof fn lemma_token_prefix_pulls_back(
    x: Seq<char>,
    key: Seq<char>,
    target: Seq<char>,
    other: Seq<char>,
    d: int,
)
    requires
        bracket_free(key),
        bracket_free(target),
        bracket_free(other),
        0 <= d <= token(other).len(),
        starts_with(replace_all(x, token(key), link_text(key, target)), token(other).skip(d)),
    ensures
        starts_with(x, token(other).skip(d)),
        replace_all(x, token(key), link_text(key, target)) == token(other).skip(d) + replace_all(
            x.skip(token(other).len() - d),
            token(key),
            link_text(key, target),
        ),
        d == 0 ==> other != key,
    decreases x.len(),
{
    let p = token(key);
    let link = link_text(key, target);
    let w = token(other);
    let v = w.skip(d);
    let y = replace_all(x, p, link);
    lemma_token_shape(key);
    lemma_token_shape(other);
    if d == w.len() {
        assert(v =~= Seq::<char>::empty());
        assert(x.skip(0) =~= x);
        assert(v + y =~= y);
        assert(x.subrange(0, 0) =~= v);
    } else if x.len() < p.len() {
        assert(y == x);
        let tail = x.skip(w.len() - d);
        assert(replace_all(tail, p, link) == tail);
        assert(x.subrange(0, v.len() as int) == v);
        assert(v + tail =~= x);
        if d == 0 && other == key {
            assert(w.len() == p.len());
        }
    } else if occurs_at(x, p, 0) {
        let rest = replace_all(x.skip(p.len() as int), p, link);
        assert(y == link + rest);
        assert(y.subrange(0, link.len() as int) =~= link);
        lemma_link_begins_no_token(y, key, target, other, d);
    } else {
        let x1 = x.skip(1);
        let y1 = replace_all(x1, p, link);
        assert(y == x.take(1) + y1);
        assert(y[0] == x[0]);
        lemma_prefix_chars(y, v, 0);
        let v1 = w.skip(d + 1);
        assert(v1 =~= v.skip(1));
        assert(y1 =~= y.skip(1));
        assert(y1.subrange(0, v1.len() as int) =~= y.subrange(0, v.len() as int).skip(1));
        assert(starts_with(y1, v1));
        lemma_token_prefix_pulls_back(x1, key, target, other, d + 1);
        assert(x1.skip(w.len() - d - 1) =~= x.skip(w.len() - d));
        let tail = replace_all(x.skip(w.len() - d), p, link);
        assert(y1 == v1 + tail);
        assert(v =~= seq![x[0]] + v1);
        assert(x.take(1) =~= seq![x[0]]);
        assert(y =~= v + tail);
        assert(x.subrange(0, v.len() as int) =~= seq![x[0]] + x1.subrange(0, v1.len() as int));
        assert(x1.subrange(0, v1.len() as int) == v1);
        assert(starts_with(x, v));
        if d == 0 && other == key {
            assert(v =~= p);
            assert(occurs_at(x, p, 0));
        }
    }
}

/// No token starts inside a link, behind its first character.
pub proof fn lemma_no_token_starts_in_link(
    y: Seq<char>,
    key: Seq<char>,
    target: Seq<char>,
    other: Seq<char>,
    at: int,
)
    requires
        bracket_free(key),
        bracket_free(target),
        starts_with(y, link_text(key, target)),
        0 < at < link_text(key, target).len(),
    ensures
        !occurs_at(y, token(other), at),
{
    let link = link_text(key, target);
    let w = token(other);
    if occurs_at(y, w, at) {
        assert(y.subrange(at, at + w.len())[0] == y[at]);
        assert(y[at] == '[');
        lemma_prefix_chars(y, link, at);
        lemma_link_shape(key, target);
        if at <= key.len() {
            assert(link[1 + (at - 1)] == key[at - 1]);
        } else if at >= key.len() + 3 && at < key.len() + 3 + target.len() {
            assert(link[key.len() as int + 3 + (at - key.len() - 3)] == target[at - key.len()
                - 3]);
        }
    }
}

/// One step of pulling an occurrence back: the text after replacing is `head`
/// followed by what replacing gives for `x.skip(n)`, and so is what replacing
/// gives for every prefix of `x` that is longer than `n`.
proof fn lemma_pull_back_step(
    x: Seq<char>,
    p: Seq<char>,
    link: Seq<char>,
    w: Seq<char>,
    head: Seq<char>,
    n: int,
    at: int,
    q1: int,
)
    requires
        0 < n <= x.len(),
        head.len() <= at,
        at + w.len() <= replace_all(x, p, link).len(),
        replace_all(x, p, link) == head + replace_all(x.skip(n), p, link),
        forall|k: int|
            n <= k <= x.len() ==> replace_all(#[trigger] x.take(k), p, link) == head
                + replace_all(x.take(k).skip(n), p, link),
        occurs_at(x.skip(n), w, q1),
        replace_all(x.skip(n), p, link).take(at - head.len()) == replace_all(
            x.skip(n).take(q1),
            p,
            link,
        ),
        replace_all(x.skip(n), p, link).skip(at - head.len() + w.len()) == replace_all(
            x.skip(n).skip(q1 + w.len()),
            p,
            link,
        ),
    ensures
        occurs_at(x, w, q1 + n),
        replace_all(x, p, link).take(at) == replace_all(x.take(q1 + n), p, link),
        replace_all(x, p, link).skip(at + w.len()) == replace_all(
            x.skip(q1 + n + w.len()),
            p,
            link,
        ),
{
    let x1 = x.skip(n);
    let y1 = replace_all(x1, p, link);
    let y = replace_all(x, p, link);
    let q = q1 + n;
    let at1 = at - head.len();
    assert(x.subrange(q, q + w.len()) =~= x1.subrange(q1, q1 + w.len()));
    assert(x.take(q).skip(n) =~= x1.take(q1));
    assert(y.take(at) =~= head + y1.take(at1));
    assert(x.skip(q + w.len()) =~= x1.skip(q1 + w.len()));
    assert(y.skip(at + w.len()) =~= y1.skip(at1 + w.len()));
}

/// Replacing makes no token: a token that stands in the text after replacing
/// stood in the text before, it is not the token that was replaced, and the
/// text on either side of it is what replacing gives for the text that stood
/// on that side before.
pub proof fn lemma_token_occurrence_pulls_back(
    x: Seq<char>,
    key: Seq<char>,
    target: Seq<char>,
    other: Seq<char>,
    at: int,
) -> (q: int)
    requires
        bracket_free(key),
        bracket_free(target),
        bracket_free(other),
        occurs_at(replace_all(x, token(key), link_text(key, target)), token(other), at),
    ensures
        occurs_at(x, token(other), q),
        other != key,
        replace_all(x, token(key), link_text(key, target)).take(at) == replace_all(
            x.take(q),
            token(key),
            link_text(key, target),
        ),
        replace_all(x, token(key), link_text(key, target)).skip(at + token(other).len())
            == replace_all(x.skip(q + token(other).len()), token(key), link_text(key, target)),
    decreases x.len(),
{
    let p = token(key);
    let link = link_text(key, target);
    let w = token(other);
    let y = replace_all(x, p, link);
    assert(p.len() == key.len() + 4 && w.len() == other.len() + 4);
    if at == 0 {
        assert(w.skip(0) =~= w);
        lemma_token_prefix_pulls_back(x, key, target, other, 0);
        let tail = replace_all(x.skip(w.len() as int), p, link);
        assert(y == w + tail);
        assert(y.take(0) =~= Seq::<char>::empty());
        assert(x.take(0) =~= Seq::<char>::empty());
        assert(y.skip(w.len() as int) =~= tail);
        0
    } else if x.len() < p.len() {
        assert(y == x);
        assert(replace_all(x.take(at), p, link) == x.take(at));
        assert(replace_all(x.skip(at + w.len()), p, link) == x.skip(at + w.len()));
        at
    } else if occurs_at(x, p, 0) {
        let n = p.len() as int;
        let x1 = x.skip(n);
        let y1 = replace_all(x1, p, link);
        assert(y == link + y1);
        assert(y.subrange(0, link.len() as int) =~= link);
        if at < link.len() {
            lemma_no_token_starts_in_link(y, key, target, other, at);
        }
        let at1 = at - link.len();
        assert(y1 =~= y.skip(link.len() as int));
        assert(y1.subrange(at1, at1 + w.len()) =~= y.subrange(at, at + w.len()));
        let q1 = lemma_token_occurrence_pulls_back(x1, key, target, other, at1);
        assert forall|k: int| n <= k <= x.len() implies replace_all(
            #[trigger] x.take(k),
            p,
            link,
        ) == link + replace_all(x.take(k).skip(n), p, link) by {
            assert(x.take(k).subrange(0, n) =~= x.subrange(0, n));
        }
        lemma_pull_back_step(x, p, link, w, link, n, at, q1);
        q1 + n
    } else {
        let x1 = x.skip(1);
        let y1 = replace_all(x1, p, link);
        let head = x.take(1);
        assert(y == head + y1);
        let at1 = at - 1;
        assert(y1 =~= y.skip(1));
        assert(y1.subrange(at1, at1 + w.len()) =~= y.subrange(at, at + w.len()));
        let q1 = lemma_token_occurrence_pulls_back(x1, key, target, other, at1);
        assert forall|k: int| 1 <= k <= x.len() implies replace_all(
            #[trigger] x.take(k),
            p,
            link,
        ) == head + replace_all(x.take(k).skip(1), p, link) by {
            let xt = x.take(k);
            assert(xt.take(1) =~= head);
            if xt.len() >= p.len() {
                assert(xt.subrange(0, p.len() as int) =~= x.subrange(0, p.len() as int));
            } else {
                assert(replace_all(xt.skip(1), p, link) == xt.skip(1));
                assert(xt =~= xt.take(1) + xt.skip(1));
            }
        }
        lemma_pull_back_step(x, p, link, w, head, 1, at, q1);
        q1 + 1
    }
}

/// The token of `key` stands at `q` and reads as a reference.
pub open spec fn keyed(x: Seq<char>, q: int, key: Seq<char>) -> bool {
    is_reference(x, q, q + 2 + key.len()) && x.subrange(q + 2, q + 2 + key.len()) == key
}

/// A reference opens at `s`, before `q`, and nothing ends it before `j`: a
/// reference that closes at `j` and starts at `q` lies inside it.
pub open spec fn covers(x: Seq<char>, s: int, q: int, j: int) -> bool {
    0 <= s < q && opens_at(x, s) && plain_between(x, s + 2, j)
}

/// Wherever the token of `key` stands in `x`, it lies inside a reference
/// that opens before it.
pub open spec fn shadowed(x: Seq<char>, key: Seq<char>) -> bool {
    forall|q: int| #[trigger]
        keyed(x, q, key) ==> exists|s: int| #[trigger] covers(x, s, q, q + 2 + key.len())
}

/// A token that reads as a reference stands in the text.
pub proof fn lemma_keyed_occurs(x: Seq<char>, q: int, key: Seq<char>)
    requires
        keyed(x, q, key),
    ensures
        occurs_at(x, token(key), q),
        forall|i: int| 0 <= i < key.len() ==> key[i] != '\n',
{
    let j = q + 2 + key.len();
    assert(x.subrange(q, q + token(key).len()) =~= token(key)) by {
        lemma_token_shape(key);
        assert forall|i: int| 0 <= i < token(key).len() implies x.subrange(
            q,
            q + token(key).len(),
        )[i] == token(key)[i] by {
            if 2 <= i < 2 + key.len() {
                assert(x.subrange(q + 2, j)[i - 2] == x[q + i]);
            }
        }
    }
    assert forall|i: int| 0 <= i < key.len() implies key[i] != '\n' by {
        assert(x.subrange(q + 2, j)[i] == x[q + 2 + i]);
    }
}

/// The token of a key without brackets and line feeds reads as a reference
/// wherever it stands.
pub proof fn lemma_occurrence_is_keyed(x: Seq<char>, q: int, key: Seq<char>)
    requires
        bracket_free(key),
        forall|i: int| 0 <= i < key.len() ==> key[i] != '\n',
        occurs_at(x, token(key), q),
    ensures
        keyed(x, q, key),
{
    let w = token(key);
    let j = q + 2 + key.len();
    lemma_token_shape(key);
    assert forall|i: int| 0 <= i < w.len() implies x[q + i] == w[i] by {
        assert(x.subrange(q, q + w.len())[i] == x[q + i]);
    }
    assert(x[q] == w[0] && x[q + 1] == w[1]);
    assert(x[j] == w[key.len() as int + 2] && x[j + 1] == w[key.len() as int + 3]);
    assert(x.subrange(q + 2, j) =~= key) by {
        assert forall|i: int| 0 <= i < key.len() implies x.subrange(q + 2, j)[i] == key[i] by {
            assert(x[q + 2 + i] == w[2 + i]);
        }
    }
    assert forall|k: int| q + 2 <= k < j implies x[k] != '\n' && !closes_at(x, k) by {
        assert(x[q + (k - q)] == w[k - q]);
        assert(w[2 + (k - q - 2)] == key[k - q - 2]);
    }
}

/// A place that lies inside a reference that opens before it starts no
/// reference of the document.
pub proof fn lemma_covered_starts_no_span(x: Seq<char>, s: int, q: int, j: int)
    requires
        covers(x, s, q, j),
        closes_at(x, j),
        q + 2 <= j,
    ensures
        forall|k: int|
            0 <= k < reference_spans(x, 0).len() ==> (#[trigger] reference_spans(x, 0)[k]).0 != q,
{
    let spans = reference_spans(x, 0);
    lemma_reference_spans(x, 0);
    assert(is_reference(x, s, j));
    assert(reference_starts_at(x, s));
    let c = choose|c: int| 0 <= c < spans.len() && (#[trigger] spans[c]).0 <= s < spans[c].1;
    assert forall|k: int| 0 <= k < spans.len() implies (#[trigger] spans[k]).0 != q by {
        if spans[k].0 == q {
            assert(is_reference(x, spans[k].0, spans[k].1 - 2));
            if k < c {
                assert(spans[k].1 <= spans[c].0);
            } else if k == c {
            } else {
                assert(spans[c].1 <= spans[k].0);
                let b = spans[c].1;
                assert(is_reference(x, spans[c].0, b - 2));
                assert(closes_at(x, b - 2));
                if b - 2 >= s + 2 {
                    assert(!closes_at(x, b - 2));
                }
            }
        }
    }
}

/// A reference that is not among those of the document lies inside one that
/// opens before it.
pub proof fn lemma_unmatched_is_covered(x: Seq<char>, q: int, j: int) -> (s: int)
    requires
        is_reference(x, q, j),
        forall|k: int|
            0 <= k < reference_spans(x, 0).len() ==> (#[trigger] reference_spans(x, 0)[k]).0 != q,
    ensures
        covers(x, s, q, j),
{
    let spans = reference_spans(x, 0);
    lemma_reference_spans(x, 0);
    assert(reference_starts_at(x, q));
    let c = choose|c: int| 0 <= c < spans.len() && (#[trigger] spans[c]).0 <= q < spans[c].1;
    let a = spans[c].0;
    let b = spans[c].1;
    assert(is_reference(x, a, b - 2));
    assert(a != q);
    assert(closes_at(x, b - 2));
    if b - 2 < j {
        if b - 2 >= q + 2 {
            assert(!closes_at(x, b - 2));
        }
        assert(false);
    }
    if j < b - 2 {
        assert(!closes_at(x, j));
    }
    a
}

/// The token that was replaced stands nowhere in the text after replacing.
pub proof fn lemma_replaced_token_is_gone(x: Seq<char>, key: Seq<char>, target: Seq<char>)
    requires
        bracket_free(key),
        bracket_free(target),
    ensures
        forall|at: int|
            !occurs_at(replace_all(x, token(key), link_text(key, target)), token(key), at),
        shadowed(replace_all(x, token(key), link_text(key, target)), key),
{
    let y = replace_all(x, token(key), link_text(key, target));
    assert forall|at: int| !occurs_at(y, token(key), at) by {
        if occurs_at(y, token(key), at) {
            let q = lemma_token_occurrence_pulls_back(x, key, target, key, at);
        }
    }
    assert forall|q: int| #[trigger] keyed(y, q, key) implies exists|s: int| #[trigger]
        covers(y, s, q, q + 2 + key.len()) by {
        lemma_keyed_occurs(y, q, key);
    }
}

/// No token ends inside a reference that nothing has ended yet: every token
/// that stands before `q` ends at `s` or before.
proof fn lemma_cover_holds_no_token(x: Seq<char>, s: int, q: int, j: int, key: Seq<char>)
    requires
        covers(x, s, q, j),
        q <= j,
        q <= x.len(),
    ensures
        forall|i: int|
            occurs_at(x.take(s) + x.subrange(s, q), token(key), i) ==> i + token(key).len()
                <= s,
{
    let p = token(key);
    let am = x.take(s) + x.subrange(s, q);
    assert(am =~= x.take(q));
    assert forall|i: int| occurs_at(am, p, i) implies i + p.len() <= s by {
        if i + p.len() > s {
            let c = i + p.len() - 2;
            assert(am.subrange(i, i + p.len())[key.len() as int + 2] == am[c]);
            assert(am.subrange(i, i + p.len())[key.len() as int + 3] == am[c + 1]);
            assert(p[key.len() as int + 2] == ']' && p[key.len() as int + 3] == ']');
            assert(x[c] == ']' && x[c + 1] == ']');
            assert(closes_at(x, c));
            if c >= s + 2 {
                assert(!closes_at(x, c));
            }
            assert(false);
        }
    }
}

/// A stretch of text that stands unchanged in another text is inside a
/// reference there as it was here.
proof fn lemma_cover_moves(
    x: Seq<char>,
    s: int,
    q: int,
    j: int,
    y: Seq<char>,
    s2: int,
)
    requires
        covers(x, s, q, j),
        q <= j,
        j + 2 <= x.len(),
        0 <= s2,
        s2 + (j + 2 - s) <= y.len(),
        y.subrange(s2, s2 + (j + 2 - s)) == x.subrange(s, j + 2),
    ensures
        covers(y, s2, s2 + (q - s), s2 + (j - s)),
{
    let n = j + 2 - s;
    assert forall|o: int| 0 <= o < n implies #[trigger] y[s2 + o] == x[s + o] by {
        assert(y.subrange(s2, s2 + n)[o] == y[s2 + o]);
        assert(x.subrange(s, j + 2)[o] == x[s + o]);
    }
    assert(y[s2 + 0] == x[s + 0]);
    assert(y[s2 + 1] == x[s + 1]);
    assert(opens_at(y, s2));
    assert forall|k: int| s2 + 2 <= k < s2 + (j - s) implies y[k] != '\n' && !closes_at(
        y,
        k,
    ) by {
        let o = k - s2;
        assert(y[s2 + o] == x[s + o]);
        assert(y[s2 + (o + 1)] == x[s + (o + 1)]);
        assert(x[s + o] != '\n' && !closes_at(x, s + o));
    }
}

/// Replacing one token by its link leaves the token of another key inside a
/// reference that opens before it, wherever that was so before.
pub proof fn lemma_shadow_survives(
    x: Seq<char>,
    key: Seq<char>,
    target: Seq<char>,
    other: Seq<char>,
)
    requires
        bracket_free(key),
        bracket_free(target),
        bracket_free(other),
        other != key,
        shadowed(x, other),
    ensures
        shadowed(replace_all(x, token(key), link_text(key, target)), other),
{
    let p = token(key);
    let link = link_text(key, target);
    let w = token(other);
    let y = replace_all(x, p, link);
    assert(p.len() == key.len() + 4 && w.len() == other.len() + 4);
    assert forall|q2: int| #[trigger] keyed(y, q2, other) implies exists|s2: int| #[trigger]
        covers(y, s2, q2, q2 + 2 + other.len()) by {
        let j2 = q2 + 2 + other.len();
        lemma_keyed_occurs(y, q2, other);
        let q = lemma_token_occurrence_pulls_back(x, key, target, other, q2);
        let j = q + 2 + other.len();
        lemma_occurrence_is_keyed(x, q, other);
        let s = choose|s: int| #[trigger] covers(x, s, q, j);
        let a = x.take(s);
        let m = x.subrange(s, q);
        assert(x.take(q) =~= a + m);
        lemma_cover_holds_no_token(x, s, q, j, key);
        lemma_replace_all_keeps_tail(a, m, p, link);
        let front = replace_all(a, p, link);
        assert(y.take(q2) == front + m);
        let s2 = front.len() as int;
        assert(y.take(q2).len() == q2);
        assert(q2 == s2 + (q - s));
        let ys = y.subrange(s2, s2 + (j + 2 - s));
        let xs = x.subrange(s, j + 2);
        assert(ys =~= xs) by {
            assert forall|o: int| 0 <= o < j + 2 - s implies #[trigger] ys[o] == xs[o] by {
                if o < q - s {
                    assert(y.take(q2)[s2 + o] == y[s2 + o]);
                    assert((front + m)[s2 + o] == m[o]);
                } else {
                    let i = o - (q - s);
                    assert(y.subrange(q2, q2 + w.len())[i] == y[q2 + i]);
                    assert(x.subrange(q, q + w.len())[i] == x[q + i]);
                }
            }
        }
        lemma_cover_moves(x, s, q, j, y, s2);
        assert(covers(y, s2, q2, j2));
    }
}

/// No key and no link target of the index holds a square bracket.
pub open spec fn plain_index(index: Map<Seq<char>, Seq<char>>, root: Seq<char>) -> bool {
    forall|key: Seq<char>| #[trigger]
        index.contains_key(key) ==> bracket_free(key) && bracket_free(
            link_target(index[key], root),
        )
}

/// Each of the references reads as the token of its key.
pub open spec fn tokens(references: Seq<ReferenceText>) -> bool {
    forall|m: int|
        0 <= m < references.len() ==> (#[trigger] references[m]).text == token(references[m].key)
}

/// None of the references from position `n` on has the key `key`.
pub open spec fn absent_from(references: Seq<ReferenceText>, n: int, key: Seq<char>) -> bool {
    forall|m: int| n <= m < references.len() ==> (#[trigger] references[m]).key != key
}

/// The references of a document read as the tokens of their keys.
pub proof fn lemma_references_are_tokens(s: Seq<char>)
    ensures
        tokens(references_in(s)),
{
    let references = references_in(s);
    assert forall|m: int| 0 <= m < references.len() implies (#[trigger] references[m]).text
        == token(references[m].key) by {
        lemma_reference_spans(s, 0);
        let span = reference_spans(s, 0)[m];
        assert(references[m] == reference_text(s, span));
        lemma_reference_text(s, span.0, span.1 - 2);
    }
}

/// While a document is rewritten, the token of every indexed key that is not
/// yet to come among the references lies inside a reference that opens before
/// it, or stands nowhere.
proof fn lemma_rewriting_keeps_shadows(
    content: Seq<char>,
    references: Seq<ReferenceText>,
    n: int,
    index: Map<Seq<char>, Seq<char>>,
    root: Seq<char>,
)
    requires
        plain_index(index, root),
        tokens(references),
        0 <= n <= references.len(),
        forall|key: Seq<char>|
            index.contains_key(key) && #[trigger] absent_from(references, 0, key) ==> shadowed(
                content,
                key,
            ),
    ensures
        forall|key: Seq<char>|
            index.contains_key(key) && #[trigger] absent_from(references, n, key) ==> shadowed(
                rewritten(content, references.take(n), index, root),
                key,
            ),
    decreases n,
{
    if n == 0 {
        assert(references.take(0) =~= Seq::<ReferenceText>::empty());
    } else {
        lemma_rewriting_keeps_shadows(content, references, n - 1, index, root);
        let before = rewritten(content, references.take(n - 1), index, root);
        let r = references[n - 1];
        assert(references.take(n).drop_last() =~= references.take(n - 1));
        assert(references.take(n).last() == r);
        let after = rewritten(content, references.take(n), index, root);
        assert(after == resolve_one(before, r, index, root));
        assert forall|key: Seq<char>|
            index.contains_key(key) && #[trigger] absent_from(
                references,
                n,
                key,
            ) implies shadowed(after, key) by {
            if resolves(r, index) {
                let target = link_target(index[r.key], root);
                assert(r.text == token(r.key));
                assert(after == replace_all(before, token(r.key), link_text(r.key, target)));
                if key == r.key {
                    lemma_replaced_token_is_gone(before, r.key, target);
                } else {
                    assert(absent_from(references, n - 1, key));
                    lemma_shadow_survives(before, r.key, target, key);
                }
            } else {
                assert(absent_from(references, n - 1, key));
            }
        }
    }
}

/// Rewriting is idempotent: where no key and no link target of the index
/// holds a square bracket, a rewritten document holds no reference that the
/// index knows, and rewriting it again gives the same document.
pub proof fn lemma_rewriting_is_idempotent(
    content: Seq<char>,
    index: Map<Seq<char>, Seq<char>>,
    root: Seq<char>,
)
    requires
        plain_index(index, root),
    ensures
        ({
            let once = rewritten(content, references_in(content), index, root);
            &&& forall|k: int|
                0 <= k < references_in(once).len() ==> !resolves(
                    #[trigger] references_in(once)[k],
                    index,
                )
            &&& rewritten(once, references_in(once), index, root) == once
        }),
{
    let references = references_in(content);
    let spans = reference_spans(content, 0);
    lemma_references_are_tokens(content);
    lemma_reference_spans(content, 0);
    assert forall|key: Seq<char>|
        index.contains_key(key) && #[trigger] absent_from(references, 0, key) implies shadowed(
            content,
            key,
        ) by {
        assert forall|q: int| #[trigger] keyed(content, q, key) implies exists|s: int|
            #[trigger] covers(content, s, q, q + 2 + key.len()) by {
            let j = q + 2 + key.len();
            assert forall|k: int| 0 <= k < spans.len() implies (#[trigger] spans[k]).0 != q by {
                if spans[k].0 == q {
                    lemma_reference_closes_once(content, q, j, spans[k].1 - 2);
                    assert(references[k] == reference_text(content, spans[k]));
                    assert(references[k].key == key);
                }
            }
            let s = lemma_unmatched_is_covered(content, q, j);
        }
    }
    lemma_rewriting_keeps_shadows(content, references, references.len() as int, index, root);
    assert(references.take(references.len() as int) =~= references);
    let once = rewritten(content, references, index, root);
    let again = references_in(once);
    let spans2 = reference_spans(once, 0);
    lemma_reference_spans(once, 0);
    assert forall|k: int| 0 <= k < again.len() implies !resolves(#[trigger] again[k], index) by {
        let span = spans2[k];
        let key = again[k].key;
        assert(again[k] == reference_text(once, span));
        assert(is_reference(once, span.0, span.1 - 2));
        if index.contains_key(key) {
            assert(absent_from(references, references.len() as int, key));
            assert(shadowed(once, key));
            assert(key.len() == span.1 - 2 - span.0 - 2);
            assert(keyed(once, span.0, key));
            let s = choose|s: int| #[trigger] covers(once, s, span.0, span.0 + 2 + key.len());
            lemma_covered_starts_no_span(once, s, span.0, span.1 - 2);
            assert(spans2[k].0 != span.0);
        }
    }
    lemma_unresolved_references_change_nothing(once, again, index, root);
}

} // verus!
