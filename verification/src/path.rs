//! Paths as text, read the way `std::path` reads them on Unix.
//!
//! A path is a run of components: the root, if the text begins with a slash,
//! and then each piece between slashes that is neither empty nor a lone dot.
//! A lone dot counts only where the whole path begins with it.
use crate::text::chars_of;
use vstd::prelude::*;
use vstd::string::*;

verus! {

/// The end of the piece of `p` that begins at `i`: the next slash, or the end.
pub open spec fn piece_end(p: Seq<char>, i: int) -> int
    decreases p.len() - i,
{
    if i < 0 || i >= p.len() || p[i] == '/' {
        i
    } else {
        piece_end(p, i + 1)
    }
}

/// Does the piece `p[i..j]` count as a component?
pub open spec fn piece_counts(p: Seq<char>, i: int, j: int) -> bool {
    i < j && !(j == i + 1 && p[i] == '.' && i > 0)
}

/// The spans of the components of `p` from position `i` on, where a piece
/// begins.
pub open spec fn spans_from(p: Seq<char>, i: int) -> Seq<(int, int)>
    decreases p.len() - i,
    when 0 <= i <= p.len()
    via spans_from_decreases
{
    let j = piece_end(p, i);
    let head = if piece_counts(p, i, j) {
        seq![(i, j)]
    } else {
        Seq::empty()
    };
    if j < p.len() {
        head + spans_from(p, j + 1)
    } else {
        head
    }
}

#[via_fn]
proof fn spans_from_decreases(p: Seq<char>, i: int) {
    piece_end_bounds(p, i);
}

/// A piece ends at a slash or at the end of the text.
pub proof fn piece_end_bounds(p: Seq<char>, i: int)
    requires
        0 <= i <= p.len(),
    ensures
        i <= piece_end(p, i) <= p.len(),
        piece_end(p, i) < p.len() ==> p[piece_end(p, i)] == '/',
        forall|k: int| i <= k < piece_end(p, i) ==> p[k] != '/',
    decreases p.len() - i,
{
    if i < p.len() && p[i] != '/' {
        piece_end_bounds(p, i + 1);
    }
}

/// Where the components of `p` stand in its text, the root included.
pub open spec fn spans(p: Seq<char>) -> Seq<(int, int)> {
    if p.len() > 0 && p[0] == '/' {
        seq![(0int, 1int)] + spans_from(p, 1)
    } else {
        spans_from(p, 0)
    }
}

/// The components of `p`, the root written as a slash.
pub open spec fn components(p: Seq<char>) -> Seq<Seq<char>> {
    Seq::new(spans(p).len(), |k: int| p.subrange(spans(p)[k].0, spans(p)[k].1))
}

/// Is `base` an ancestor of `p`, or `p` itself, component by component?
pub open spec fn is_within(p: Seq<char>, base: Seq<char>) -> bool {
    components(base).len() <= components(p).len() && components(p).take(
        components(base).len() as int,
    ) == components(base)
}

/// The text of `p` after its first `n` components.
pub open spec fn after_components(p: Seq<char>, n: nat) -> Seq<char> {
    if n < spans(p).len() {
        p.subrange(spans(p)[n as int].0, spans(p).last().1)
    } else {
        Seq::empty()
    }
}

/// `rel` below `base`; an absolute `rel` replaces `base`.
pub open spec fn join_path(base: Seq<char>, rel: Seq<char>) -> Seq<char> {
    if rel.len() > 0 && rel[0] == '/' {
        rel
    } else if base.len() > 0 && base.last() != '/' {
        base.push('/') + rel
    } else {
        base + rel
    }
}

/// Spans as integers.
pub open spec fn span_ints(v: Seq<(usize, usize)>) -> Seq<(int, int)> {
    Seq::new(v.len(), |i: int| (v[i].0 as int, v[i].1 as int))
}

/// Every span lies within the text and is not empty.
pub proof fn spans_from_bounds(p: Seq<char>, i: int)
    requires
        0 <= i <= p.len(),
    ensures
        forall|k: int|
            0 <= k < spans_from(p, i).len() ==> i <= (#[trigger] spans_from(p, i)[k]).0
                < spans_from(p, i)[k].1 <= p.len(),
        forall|k: int, l: int|
            0 <= k < l < spans_from(p, i).len() ==> (#[trigger] spans_from(p, i)[k]).1
                <= (#[trigger] spans_from(p, i)[l]).0,
    decreases p.len() - i,
{
    piece_end_bounds(p, i);
    let j = piece_end(p, i);
    let all = spans_from(p, i);
    if j < p.len() {
        spans_from_bounds(p, j + 1);
        let rest = spans_from(p, j + 1);
        let h: int = if piece_counts(p, i, j) {
            1
        } else {
            0
        };
        assert(all.len() == h + rest.len());
        assert forall|k: int| h <= k < all.len() implies #[trigger] all[k] == rest[k - h] by {}
        assert forall|k: int, l: int| 0 <= k < l < all.len() implies (#[trigger] all[k]).1 <= (
        #[trigger] all[l]).0 by {
            assert(all[l] == rest[l - h]);
            if k >= h {
                assert(all[k] == rest[k - h]);
            }
        }
    }
}

/// Every span of a path lies within its text, is not empty, and ends before
/// the next begins.
pub proof fn spans_bounds(p: Seq<char>)
    ensures
        forall|k: int|
            0 <= k < spans(p).len() ==> 0 <= (#[trigger] spans(p)[k]).0 < spans(p)[k].1
                <= p.len(),
        forall|k: int, l: int|
            0 <= k < l < spans(p).len() ==> (#[trigger] spans(p)[k]).1 <= (#[trigger] spans(p)[l]).0,
{
    if p.len() > 0 && p[0] == '/' {
        spans_from_bounds(p, 1);
    } else {
        spans_from_bounds(p, 0);
    }
}

/// Where the components of a path stand in its text.
pub fn component_spans(p: &Vec<char>) -> (r: Vec<(usize, usize)>)
    ensures
        span_ints(r@) == spans(p@),
{
    let mut out: Vec<(usize, usize)> = Vec::new();
    let n = p.len();
    let mut i: usize = 0;
    if n > 0 && p[0] == '/' {
        out.push((0, 1));
        i = 1;
    }
    assert(spans(p@) =~= span_ints(out@) + spans_from(p@, i as int));
    loop
        invariant
            n == p@.len(),
            i <= n,
            spans(p@) == span_ints(out@) + spans_from(p@, i as int),
        decreases n - i,
    {
        let mut j: usize = i;
        while j < n && p[j] != '/'
            invariant
                n == p@.len(),
                i <= j <= n,
                piece_end(p@, i as int) == piece_end(p@, j as int),
            decreases n - j,
        {
            j += 1;
        }
        let ghost before = out@;
        if i < j && !(j == i + 1 && p[i] == '.' && i > 0) {
            out.push((i, j));
            assert(span_ints(out@) =~= span_ints(before).push((i as int, j as int)));
        }
        if j == n {
            assert(spans(p@) =~= span_ints(out@));
            return out;
        }
        assert(spans(p@) =~= span_ints(out@) + spans_from(p@, j + 1));
        i = j + 1;
    }
}

/// How many components `p` has.
pub fn depth(p: &str) -> (r: usize)
    ensures
        r == components(p@).len(),
{
    let x = chars_of(p);
    let s = component_spans(&x);
    assert(span_ints(s@).len() == s@.len());
    s.len()
}

/// The text of `p` below `base`, or `None` where `p` does not lie within
/// `base`.
pub fn strip_base(p: &str, base: &str) -> (r: Option<String>)
    ensures
        match r {
            Some(rel) => is_within(p@, base@) && rel@ == after_components(
                p@,
                components(base@).len(),
            ),
            None => !is_within(p@, base@),
        },
{
    let x = chars_of(p);
    let y = chars_of(base);
    let sx = component_spans(&x);
    let sy = component_spans(&y);
    proof {
        spans_bounds(p@);
        spans_bounds(base@);
        assert(span_ints(sx@).len() == sx@.len());
        assert(span_ints(sy@).len() == sy@.len());
    }
    if sy.len() > sx.len() {
        return None;
    }
    let mut k: usize = 0;
    while k < sy.len()
        invariant
            x@ == p@,
            y@ == base@,
            span_ints(sx@) == spans(p@),
            span_ints(sy@) == spans(base@),
            span_ints(sx@).len() == sx@.len(),
            span_ints(sy@).len() == sy@.len(),
            sy@.len() <= sx@.len(),
            k <= sy@.len(),
            forall|q: int|
                0 <= q < spans(p@).len() ==> 0 <= (#[trigger] spans(p@)[q]).0 < spans(p@)[q].1
                    <= p@.len(),
            forall|q: int|
                0 <= q < spans(base@).len() ==> 0 <= (#[trigger] spans(base@)[q]).0 < spans(
                    base@,
                )[q].1 <= base@.len(),
            forall|q: int| 0 <= q < k ==> components(p@)[q] == components(base@)[q],
        decreases sy@.len() - k,
    {
        let (a, b) = sx[k];
        let (c, d) = sy[k];
        let ghost cp = components(p@)[k as int];
        let ghost cb = components(base@)[k as int];
        proof {
            assert(spans(p@)[k as int] == span_ints(sx@)[k as int]);
            assert(spans(base@)[k as int] == span_ints(sy@)[k as int]);
            assert(cp == x@.subrange(a as int, b as int));
            assert(cb == y@.subrange(c as int, d as int));
        }
        let same = same_span(&x, a, b, &y, c, d);
        if !same {
            assert(components(p@).take(sy@.len() as int)[k as int] == cp);
            return None;
        }
        k += 1;
    }
    assert(components(p@).take(sy@.len() as int) =~= components(base@));
    if sy.len() < sx.len() {
        let from = sx[sy.len()].0;
        let to = sx[sx.len() - 1].1;
        proof {
            assert(spans(p@)[sy@.len() as int] == span_ints(sx@)[sy@.len() as int]);
            assert(spans(p@).last() == span_ints(sx@)[sx@.len() - 1]);
        }
        Some(crate::text::string_of(&x, from, to))
    } else {
        let out = String::new();
        assert(out@ =~= after_components(p@, components(base@).len()));
        Some(out)
    }
}

fn same_span(x: &Vec<char>, a: usize, b: usize, y: &Vec<char>, c: usize, d: usize) -> (r: bool)
    requires
        a <= b <= x@.len(),
        c <= d <= y@.len(),
    ensures
        r == (x@.subrange(a as int, b as int) == y@.subrange(c as int, d as int)),
{
    let ghost s = x@.subrange(a as int, b as int);
    let ghost t = y@.subrange(c as int, d as int);
    assert(s.len() == b - a && t.len() == d - c);
    if b - a != d - c {
        return false;
    }
    let mut i: usize = 0;
    while i < b - a
        invariant
            a <= b <= x@.len(),
            c <= d <= y@.len(),
            b - a == d - c,
            s == x@.subrange(a as int, b as int),
            t == y@.subrange(c as int, d as int),
            i <= b - a,
            forall|k: int| 0 <= k < i ==> s[k] == t[k],
        decreases b - a - i,
    {
        assert(s[i as int] == x@[a + i] && t[i as int] == y@[c + i]);
        if x[a + i] != y[c + i] {
            return false;
        }
        i += 1;
    }
    assert(s =~= t);
    true
}

/// `rel` below `base`; an absolute `rel` replaces `base`.
pub fn joined_path(base: &str, rel: &str) -> (r: String)
    ensures
        r@ == join_path(base@, rel@),
{
    let x = chars_of(base);
    let y = chars_of(rel);
    let mut out = String::new();
    if y.len() > 0 && y[0] == '/' {
        out.append(rel);
        assert(out@ =~= rel@);
        return out;
    }
    out.append(base);
    if x.len() > 0 && x[x.len() - 1] != '/' {
        out.push('/');
    }
    out.append(rel);
    assert(out@ =~= join_path(base@, rel@));
    out
}

// ---------------------------------------------------------------------
// Paths as keys
// ---------------------------------------------------------------------
/// Are the two texts the same path: have they the same components?
pub open spec fn same_path(a: Seq<char>, b: Seq<char>) -> bool {
    components(a) == components(b)
}

/// A text for a list of components: each with a slash behind it.
pub open spec fn key_of(list: Seq<Seq<char>>) -> Seq<char>
    decreases list.len(),
{
    if list.len() == 0 {
        Seq::empty()
    } else {
        key_of(list.drop_last()) + list.last().push('/')
    }
}

/// Can this be a component: the root, or a text that is not empty and has no
/// slash?
pub open spec fn is_component(c: Seq<char>) -> bool {
    c == seq!['/'] || c.len() > 0 && forall|i: int| 0 <= i < c.len() ==> (#[trigger] c[i]) != '/'
}

/// Are all of them components?
pub open spec fn are_components(list: Seq<Seq<char>>) -> bool {
    forall|k: int| 0 <= k < list.len() ==> is_component(#[trigger] list[k])
}

/// No span from a position on has a slash in it.
proof fn lemma_spans_without_slash(p: Seq<char>, i: int)
    requires
        0 <= i <= p.len(),
    ensures
        forall|k: int, m: int|
            0 <= k < spans_from(p, i).len() && (#[trigger] spans_from(p, i)[k]).0 <= m
                < spans_from(p, i)[k].1 ==> (#[trigger] p[m]) != '/',
    decreases p.len() - i,
{
    piece_end_bounds(p, i);
    let j = piece_end(p, i);
    let all = spans_from(p, i);
    if j < p.len() {
        lemma_spans_without_slash(p, j + 1);
        let rest = spans_from(p, j + 1);
        let h: int = if piece_counts(p, i, j) {
            1
        } else {
            0
        };
        assert forall|k: int, m: int|
            0 <= k < all.len() && (#[trigger] all[k]).0 <= m < all[k].1 implies (#[trigger] p[m])
            != '/' by {
            if k >= h {
                assert(all[k] == rest[k - h]);
            }
        }
    }
}

/// The components of a path are components.
proof fn lemma_components(p: Seq<char>)
    ensures
        are_components(components(p)),
{
    let rooted = p.len() > 0 && p[0] == '/';
    let from: int = if rooted {
        1
    } else {
        0
    };
    spans_bounds(p);
    lemma_spans_without_slash(p, from);
    assert forall|k: int| 0 <= k < components(p).len() implies is_component(
        #[trigger] components(p)[k],
    ) by {
        let c = components(p)[k];
        let s = spans(p)[k];
        if rooted && k == 0 {
            assert(c =~= seq!['/']);
        } else {
            assert(s == spans_from(p, from)[k - from]);
            assert forall|i: int| 0 <= i < c.len() implies (#[trigger] c[i]) != '/' by {
                assert(c[i] == p[s.0 + i]);
            }
        }
    }
}

/// The last slash but one of a key stands before its last component.
proof fn lemma_last_component(front: Seq<char>, c: Seq<char>, other: Seq<char>, d: Seq<char>)
    requires
        is_component(c),
        is_component(d),
        front.len() == 0 || front.last() == '/',
        other.len() == 0 || other.last() == '/',
        front + c.push('/') == other + d.push('/'),
        c.len() <= d.len(),
    ensures
        c == d,
        front == other,
{
    let a = front + c.push('/');
    let b = other + d.push('/');
    let n = a.len() as int;
    if c.len() == d.len() {
        assert(front =~= a.take(front.len() as int));
        assert(other =~= b.take(other.len() as int));
        assert forall|i: int| 0 <= i < c.len() implies c[i] == d[i] by {
            assert(a[front.len() + i] == c[i]);
            assert(b[other.len() + i] == d[i]);
        }
        assert(c =~= d);
    } else {
        // The slash before `c` would stand in `d`.
        let at = n - 2 - c.len();
        assert(front.len() > 0);
        assert(a[at] == front.last());
        assert(b[at] == d[at - other.len()]);
        assert(d.len() >= 2);
    }
}

/// Different components make different keys.
proof fn lemma_key_tells_apart(a: Seq<Seq<char>>, b: Seq<Seq<char>>)
    requires
        are_components(a),
        are_components(b),
        key_of(a) == key_of(b),
    ensures
        a == b,
    decreases a.len(),
{
    lemma_key_ends(a);
    lemma_key_ends(b);
    if a.len() == 0 || b.len() == 0 {
        assert(a =~= b);
    } else {
        let (x, y) = (a.drop_last(), b.drop_last());
        assert forall|k: int| 0 <= k < x.len() implies is_component(#[trigger] x[k]) by {
            assert(x[k] == a[k]);
        }
        assert forall|k: int| 0 <= k < y.len() implies is_component(#[trigger] y[k]) by {
            assert(y[k] == b[k]);
        }
        assert(is_component(a[a.len() - 1]) && is_component(b[b.len() - 1]));
        lemma_key_ends(x);
        lemma_key_ends(y);
        if a.last().len() <= b.last().len() {
            lemma_last_component(key_of(x), a.last(), key_of(y), b.last());
        } else {
            lemma_last_component(key_of(y), b.last(), key_of(x), a.last());
        }
        lemma_key_tells_apart(x, y);
        assert(a =~= x.push(a.last()));
        assert(b =~= y.push(b.last()));
    }
}

/// A key ends in a slash, and is not empty where there are components.
proof fn lemma_key_ends(list: Seq<Seq<char>>)
    ensures
        list.len() > 0 ==> key_of(list).len() > 0,
        key_of(list).len() == 0 || key_of(list).last() == '/',
{
    if list.len() > 0 {
        let tail = list.last().push('/');
        assert(key_of(list).last() == tail.last());
    }
}

/// Two texts have the same key exactly if they are the same path.
pub proof fn keys_tell_paths_apart(a: Seq<char>, b: Seq<char>)
    ensures
        key_of(components(a)) == key_of(components(b)) <==> same_path(a, b),
{
    lemma_components(a);
    lemma_components(b);
    if key_of(components(a)) == key_of(components(b)) {
        lemma_key_tells_apart(components(a), components(b));
    }
}

/// A text that two texts have in common exactly if they are the same path.
pub fn path_key(p: &str) -> (r: String)
    ensures
        r@ == key_of(components(p@)),
{
    let x = chars_of(p);
    let s = component_spans(&x);
    let ghost all = components(p@);
    let mut out = String::new();
    let mut k: usize = 0;
    proof {
        spans_bounds(p@);
        assert(span_ints(s@).len() == s@.len());
        assert(all.take(0) =~= Seq::<Seq<char>>::empty());
    }
    while k < s.len()
        invariant
            x@ == p@,
            all == components(p@),
            span_ints(s@) == spans(p@),
            span_ints(s@).len() == s@.len(),
            all.len() == s@.len(),
            k <= s@.len(),
            forall|q: int|
                0 <= q < spans(p@).len() ==> 0 <= (#[trigger] spans(p@)[q]).0 < spans(p@)[q].1
                    <= p@.len(),
            out@ == key_of(all.take(k as int)),
        decreases s@.len() - k,
    {
        let (a, b) = s[k];
        proof {
            assert(spans(p@)[k as int] == span_ints(s@)[k as int]);
            assert(all.take(k + 1).drop_last() =~= all.take(k as int));
            assert(all.take(k + 1).last() == all[k as int]);
        }
        let piece = crate::text::string_of(&x, a, b);
        let ghost before = out@;
        out.append(piece.as_str());
        out.push('/');
        assert(out@ =~= before + all[k as int].push('/'));
        k += 1;
    }
    assert(all.take(all.len() as int) =~= all);
    out
}

} // verus!
