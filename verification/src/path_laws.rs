//! What holds of paths: how joining and stripping go together with the
//! components.
use crate::path::{
    after_components, components, is_within, join_path, piece_counts, piece_end, piece_end_bounds,
    spans, spans_from, spans_from_bounds,
};
use vstd::prelude::*;

verus! {

/// The components of `p` from position `i` on, where a piece begins.
spec fn pieces_from(p: Seq<char>, i: int) -> Seq<Seq<char>> {
    Seq::new(
        spans_from(p, i).len(),
        |k: int| p.subrange(spans_from(p, i)[k].0, spans_from(p, i)[k].1),
    )
}

/// The components are those of the first piece and those behind it.
proof fn lemma_pieces(p: Seq<char>, i: int)
    requires
        0 <= i <= p.len(),
    ensures
        ({
            let j = piece_end(p, i);
            let head = if piece_counts(p, i, j) {
                seq![p.subrange(i, j)]
            } else {
                Seq::empty()
            };
            pieces_from(p, i) == if j < p.len() {
                head + pieces_from(p, j + 1)
            } else {
                head
            }
        }),
{
    piece_end_bounds(p, i);
    let j = piece_end(p, i);
    let head = if piece_counts(p, i, j) {
        seq![p.subrange(i, j)]
    } else {
        Seq::empty()
    };
    if j < p.len() {
        assert(pieces_from(p, i) =~= head + pieces_from(p, j + 1));
    } else {
        assert(pieces_from(p, i) =~= head);
    }
}

proof fn lemma_components_are_pieces(p: Seq<char>)
    ensures
        p.len() > 0 && p[0] == '/' ==> components(p) == seq![seq!['/']] + pieces_from(p, 1),
        !(p.len() > 0 && p[0] == '/') ==> components(p) == pieces_from(p, 0),
{
    if p.len() > 0 && p[0] == '/' {
        assert(p.subrange(0, 1) =~= seq!['/']);
        assert(components(p) =~= seq![seq!['/']] + pieces_from(p, 1));
    } else {
        assert(components(p) =~= pieces_from(p, 0));
    }
}

/// Does the path begin with a lone dot?
pub open spec fn begins_with_dot(p: Seq<char>) -> bool {
    p.len() > 0 && p[0] == '.' && (p.len() == 1 || p[1] == '/')
}

/// Does the path begin at the root?
pub open spec fn is_absolute(p: Seq<char>) -> bool {
    p.len() > 0 && p[0] == '/'
}

/// A piece of the same text ends at the same place.
proof fn lemma_same_end(p: Seq<char>, i: int, q: Seq<char>, d: int)
    requires
        0 <= i <= p.len(),
        0 <= i + d,
        q.len() == p.len() + d,
        forall|k: int| i <= k < p.len() ==> (#[trigger] p[k]) == q[k + d],
    ensures
        piece_end(q, i + d) == piece_end(p, i) + d,
    decreases p.len() - i,
{
    if i < p.len() {
        assert(p[i] == q[i + d]);
        if p[i] != '/' {
            lemma_same_end(p, i + 1, q, d);
        }
    }
}

/// The pieces of the same text are the same, but for a lone dot at the
/// beginning.
proof fn lemma_same_pieces(p: Seq<char>, i: int, q: Seq<char>, d: int)
    requires
        0 <= i <= p.len(),
        0 <= i + d,
        q.len() == p.len() + d,
        forall|k: int| i <= k < p.len() ==> (#[trigger] p[k]) == q[k + d],
        i > 0 && i + d > 0 || !begins_with_dot(p.skip(i)) || d == 0,
    ensures
        pieces_from(q, i + d) == pieces_from(p, i),
    decreases p.len() - i,
{
    lemma_same_end(p, i, q, d);
    piece_end_bounds(p, i);
    lemma_pieces(p, i);
    lemma_pieces(q, i + d);
    let j = piece_end(p, i);
    assert(p.subrange(i, j) =~= q.subrange(i + d, j + d)) by {
        assert forall|k: int| i <= k < j implies p[k] == q[k + d] by {}
    }
    if i < p.len() {
        assert(p.skip(i)[0] == p[i]);
        if i + 1 < p.len() {
            assert(p.skip(i)[1] == p[i + 1]);
        }
    }
    assert(piece_counts(p, i, j) == piece_counts(q, i + d, j + d));
    if j < p.len() {
        lemma_same_pieces(p, j + 1, q, d);
    }
}

/// Up to a slash, the pieces are those of what stands before it.
proof fn lemma_pieces_split(q: Seq<char>, m: int, i: int)
    requires
        0 <= i <= m <= q.len(),
        m > 0,
        q[m - 1] == '/',
    ensures
        pieces_from(q, i) == pieces_from(q.take(m), i) + pieces_from(q, m),
    decreases m - i,
{
    let base = q.take(m);
    lemma_pieces(q, i);
    lemma_pieces(base, i);
    piece_end_bounds(q, i);
    piece_end_bounds(base, i);
    if i == m {
        assert(pieces_from(base, i) =~= Seq::empty());
        assert(pieces_from(q, m) =~= Seq::<Seq<char>>::empty() + pieces_from(q, m));
    } else {
        let j = piece_end(base, i);
        if j == m {
            assert(base[m - 1] == '/');
        }
        lemma_end_in_front(q, m, i);
        assert(q.subrange(i, j) =~= base.subrange(i, j));
        lemma_pieces_split(q, m, j + 1);
        assert(pieces_from(q, i) =~= pieces_from(base, i) + pieces_from(q, m));
    }
}

/// A piece that ends before a position ends there in the text cut off behind
/// it, too.
proof fn lemma_end_in_front(q: Seq<char>, m: int, i: int)
    requires
        0 <= i <= m <= q.len(),
    ensures
        piece_end(q.take(m), i) < m ==> piece_end(q, i) == piece_end(q.take(m), i),
        piece_end(q.take(m), i) == m ==> piece_end(q, i) >= m,
    decreases m - i,
{
    if i < m {
        assert(q.take(m)[i] == q[i]);
        if q[i] != '/' {
            lemma_end_in_front(q, m, i + 1);
        }
    } else {
        piece_end_bounds(q, i);
    }
}

/// A slash at the end makes no difference.
proof fn lemma_pieces_before_slash(b: Seq<char>, i: int)
    requires
        0 <= i <= b.len(),
    ensures
        pieces_from(b.push('/'), i) == pieces_from(b, i),
    decreases b.len() - i,
{
    let q = b.push('/');
    assert(q.take(b.len() as int) =~= b);
    lemma_pieces(q, i);
    lemma_pieces(b, i);
    piece_end_bounds(b, i);
    piece_end_bounds(q, i);
    lemma_end_in_front(q, b.len() as int, i);
    let j = piece_end(b, i);
    assert(piece_end(q, i) == j) by {
        if j == b.len() {
            assert(q[b.len() as int] == '/');
        }
    }
    assert(q.subrange(i, j) =~= b.subrange(i, j));
    if j < b.len() {
        lemma_pieces_before_slash(b, j + 1);
    } else {
        lemma_pieces(q, q.len() as int);
        assert(pieces_from(q, q.len() as int) =~= Seq::empty());
        assert(pieces_from(q, i) =~= pieces_from(b, i));
    }
}

/// Below a path that is not empty, a relative path adds its components to
/// those of the other; a dot that it begins with counts for nothing.
pub proof fn joining_appends_components(base: Seq<char>, rel: Seq<char>)
    requires
        base.len() > 0,
        !is_absolute(rel),
    ensures
        components(join_path(base, rel)) == components(base) + if begins_with_dot(rel) {
            components(rel).skip(1)
        } else {
            components(rel)
        },
{
    let front = if base.last() != '/' {
        base.push('/')
    } else {
        base
    };
    let q = front + rel;
    let m = front.len() as int;
    let from: int = if base[0] == '/' {
        1
    } else {
        0
    };
    assert(join_path(base, rel) == q);
    assert(q.take(m) =~= front);
    assert(q[m - 1] == '/');
    assert(q[0] == base[0]);
    lemma_pieces_split(q, m, from);
    lemma_components_are_pieces(base);
    lemma_components_are_pieces(q);
    lemma_components_are_pieces(rel);
    if base.last() != '/' {
        lemma_pieces_before_slash(base, from);
    }
    assert(components(q) =~= components(base) + pieces_from(q, m));
    assert forall|k: int| 0 <= k < rel.len() implies (#[trigger] rel[k]) == q[k + m] by {}
    if begins_with_dot(rel) {
        lemma_pieces(rel, 0);
        lemma_pieces(q, m);
        lemma_same_end(rel, 0, q, m);
        assert(piece_end(rel, 1) == 1);
        assert(piece_end(rel, 0) == 1);
        if rel.len() > 1 {
            lemma_same_pieces(rel, 2, q, m);
            assert(components(rel).skip(1) =~= pieces_from(rel, 2));
        } else {
            assert(components(rel).skip(1) =~= Seq::empty());
            assert(pieces_from(q, m) =~= Seq::empty());
        }
    } else {
        assert(rel.skip(0) =~= rel);
        lemma_same_pieces(rel, 0, q, m);
    }
}

/// An absolute path replaces what it is joined to.
pub proof fn an_absolute_path_stands_alone(base: Seq<char>, rel: Seq<char>)
    requires
        is_absolute(rel) || base.len() == 0,
    ensures
        components(join_path(base, rel)) == components(rel),
{
    if base.len() == 0 && !is_absolute(rel) {
        assert(join_path(base, rel) =~= rel);
    }
}

/// Is this the name of a directory entry: a text that is not empty and has no
/// slash?
pub open spec fn is_name(s: Seq<char>) -> bool {
    s.len() > 0 && forall|i: int| 0 <= i < s.len() ==> (#[trigger] s[i]) != '/'
}

/// A name is a path of one component, itself.
pub proof fn a_name_is_one_component(name: Seq<char>)
    requires
        is_name(name),
    ensures
        components(name) == seq![name],
        components(seq!['/'] + name) == if name == seq!['.'] {
            seq![seq!['/']]
        } else {
            seq![seq!['/'], name]
        },
{
    let q = seq!['/'] + name;
    lemma_components_are_pieces(name);
    lemma_components_are_pieces(q);
    lemma_pieces(name, 0);
    lemma_pieces(q, 1);
    piece_end_bounds(name, 0);
    piece_end_bounds(q, 1);
    assert(name[0] != '/');
    assert(piece_end(name, 0) == name.len());
    assert(piece_end(q, 1) == q.len()) by {
        let j = piece_end(q, 1);
        if j < q.len() {
            assert(q[j] == name[j - 1]);
        }
    }
    assert(name.subrange(0, name.len() as int) =~= name);
    assert(q.subrange(1, q.len() as int) =~= name);
    assert(q[1] == name[0]);
    if name.len() == 1 && name[0] == '.' {
        assert(name =~= seq!['.']);
        assert(components(q) =~= seq![seq!['/']]);
    } else {
        assert(components(q) =~= seq![seq!['/'], name]);
    }
}

/// The empty text has no components, and a slash alone is the root.
pub proof fn the_root_is_one_component()
    ensures
        components(Seq::empty()) == Seq::<Seq<char>>::empty(),
        components(seq!['/']) == seq![seq!['/']],
{
    let e = Seq::<char>::empty();
    let r = seq!['/'];
    lemma_components_are_pieces(e);
    lemma_components_are_pieces(r);
    lemma_pieces(e, 0);
    lemma_pieces(r, 1);
    assert(components(e) =~= Seq::empty());
    assert(components(r) =~= seq![seq!['/']]);
}

/// The spans from a span's beginning on are those from it on.
proof fn lemma_spans_at_span(p: Seq<char>, i: int, n: int)
    requires
        0 <= i <= p.len(),
        0 <= n < spans_from(p, i).len(),
    ensures
        0 <= spans_from(p, i)[n].0 <= p.len(),
        spans_from(p, spans_from(p, i)[n].0) == spans_from(p, i).skip(n),
    decreases p.len() - i,
{
    piece_end_bounds(p, i);
    spans_from_bounds(p, i);
    let j = piece_end(p, i);
    let all = spans_from(p, i);
    let h: int = if piece_counts(p, i, j) {
        1
    } else {
        0
    };
    if h == 1 && n == 0 {
        assert(all[0] == (i, j));
        assert(all.skip(0) =~= all);
    } else {
        let rest = spans_from(p, j + 1);
        assert(all[n] == rest[n - h]);
        lemma_spans_at_span(p, j + 1, n - h);
        assert(all.skip(n) =~= rest.skip(n - h));
    }
}

/// What stands behind the last component makes no difference.
proof fn lemma_cut_behind_last(p: Seq<char>, i: int)
    requires
        0 <= i <= p.len(),
        spans_from(p, i).len() > 0,
    ensures
        i <= spans_from(p, i).last().1 <= p.len(),
        spans_from(p.take(spans_from(p, i).last().1), i) == spans_from(p, i),
    decreases p.len() - i,
{
    piece_end_bounds(p, i);
    spans_from_bounds(p, i);
    let j = piece_end(p, i);
    let all = spans_from(p, i);
    let e = all.last().1;
    let cut = p.take(e);
    assert(all[all.len() - 1].1 == e);
    let rest = if j < p.len() {
        spans_from(p, j + 1)
    } else {
        Seq::empty()
    };
    piece_end_bounds(cut, i);
    lemma_end_in_front(p, e, i);
    if rest.len() > 0 {
        spans_from_bounds(p, j + 1);
        assert(all.last() == rest.last());
        assert(rest[rest.len() - 1].0 >= j + 1);
        lemma_cut_behind_last(p, j + 1);
        if piece_end(cut, i) == e {
            assert(p[j] == '/');
        }
        assert(piece_end(cut, i) == j);
        assert(spans_from(cut, i) =~= all);
    } else {
        assert(all.len() == 1);
        assert(all[0] == (i, j));
        assert(e == j);
        assert(piece_end(cut, i) == j) by {
            if piece_end(cut, i) < e {
                assert(cut[piece_end(cut, i)] == '/');
            }
        }
        assert(spans_from(cut, i) =~= all);
    }
}

/// The text from a span that is not at the very beginning up to the end of the
/// last one is a relative path of the same pieces.
proof fn lemma_tail(p: Seq<char>, s: int)
    requires
        0 < s <= p.len(),
        spans_from(p, s).len() > 0,
        spans_from(p, s)[0].0 == s,
    ensures
        ({
            let t = p.subrange(s, spans_from(p, s).last().1);
            &&& s < spans_from(p, s).last().1 <= p.len()
            &&& !is_absolute(t)
            &&& !begins_with_dot(t)
            &&& components(t) == pieces_from(p, s)
        }),
{
    let here = spans_from(p, s);
    spans_from_bounds(p, s);
    lemma_cut_behind_last(p, s);
    lemma_span_is_piece(p, s, 0);
    piece_end_bounds(p, s);
    let last = here[here.len() - 1];
    let e = last.1;
    let j = piece_end(p, s);
    assert(here[0].1 == j);
    assert(j <= e);
    let cut = p.take(e);
    let t = p.subrange(s, e);
    assert forall|k: int| 0 <= k < t.len() implies (#[trigger] t[k]) == cut[k + s] by {}
    assert(t[0] == p[s]);
    if begins_with_dot(t) {
        if t.len() > 1 {
            assert(t[1] == p[s + 1]);
        }
        assert(j == s + 1);
        assert(false);
    }
    assert(t.skip(0) =~= t);
    lemma_same_pieces(t, 0, cut, s);
    lemma_components_are_pieces(t);
    assert forall|k: int| 0 <= k < here.len() implies cut.subrange(here[k].0, here[k].1)
        == p.subrange(here[k].0, here[k].1) by {
        if k < here.len() - 1 {
            assert(here[k].1 <= here[here.len() - 1].0);
        }
        assert(cut.subrange(here[k].0, here[k].1) =~= p.subrange(here[k].0, here[k].1));
    }
    assert(pieces_from(cut, s) =~= pieces_from(p, s));
}

/// The text behind the first components of a path is a relative path, and its
/// components are the other ones.
pub proof fn what_is_behind_keeps_its_components(p: Seq<char>, n: nat)
    requires
        0 < n <= components(p).len(),
    ensures
        components(after_components(p, n)) == components(p).skip(n as int),
        !is_absolute(after_components(p, n)),
        !begins_with_dot(after_components(p, n)),
{
    let t = after_components(p, n);
    let from: int = if is_absolute(p) {
        1
    } else {
        0
    };
    the_root_is_one_component();
    if n == components(p).len() {
        assert(t =~= Seq::empty());
        assert(components(p).skip(n as int) =~= Seq::empty());
    } else {
        let all = spans_from(p, from);
        let at = n - from;
        spans_from_bounds(p, from);
        assert(spans(p)[n as int] == all[at]);
        assert(spans(p).last() == all.last());
        let s = all[at].0;
        assert(s > 0) by {
            if from == 0 {
                assert(all[0].1 <= all[at].0);
            }
        }
        lemma_spans_at_span(p, from, at);
        let here = spans_from(p, s);
        assert(here.last() == all.last());
        assert(here[0] == all[at]);
        lemma_tail(p, s);
        lemma_skipped(p, n as int, from, s);
    }
}

/// The components from one on are the pieces from its beginning on.
proof fn lemma_skipped(p: Seq<char>, n: int, from: int, s: int)
    requires
        from == if is_absolute(p) {
            1int
        } else {
            0int
        },
        from <= n < components(p).len(),
        spans_from(p, s) == spans_from(p, from).skip(n - from),
    ensures
        components(p).skip(n) == pieces_from(p, s),
{
    let here = spans_from(p, s);
    let all = spans_from(p, from);
    assert forall|k: int| 0 <= k < here.len() implies components(p)[n + k] == pieces_from(p, s)[k] by {
        assert(spans(p)[n + k] == all[n - from + k]);
        assert(here[k] == all[n - from + k]);
    }
    assert(components(p).skip(n) =~= pieces_from(p, s));
}

/// A span is the piece that begins where it does, and that piece counts.
proof fn lemma_span_is_piece(p: Seq<char>, i: int, n: int)
    requires
        0 <= i <= p.len(),
        0 <= n < spans_from(p, i).len(),
    ensures
        ({
            let s = spans_from(p, i)[n];
            &&& s.1 == piece_end(p, s.0)
            &&& piece_counts(p, s.0, s.1)
        }),
    decreases p.len() - i,
{
    piece_end_bounds(p, i);
    let j = piece_end(p, i);
    let h: int = if piece_counts(p, i, j) {
        1
    } else {
        0
    };
    if !(h == 1 && n == 0) {
        assert(spans_from(p, i)[n] == spans_from(p, j + 1)[n - h]);
        lemma_span_is_piece(p, j + 1, n - h);
    }
}

/// What is stripped off a path leads back to it when it is joined again.
pub proof fn stripping_is_undone_by_joining(p: Seq<char>, base: Seq<char>)
    requires
        is_within(p, base),
        components(base).len() > 0,
    ensures
        components(join_path(base, after_components(p, components(base).len()))) == components(p),
{
    let n = components(base).len();
    let rel = after_components(p, n);
    the_root_is_one_component();
    assert(base.len() > 0) by {
        if base.len() == 0 {
            assert(base =~= Seq::empty());
        }
    }
    what_is_behind_keeps_its_components(p, n);
    joining_appends_components(base, rel);
    assert(components(p) =~= components(p).take(n as int) + components(p).skip(n as int));
}

/// What is joined below a path lies within it, and is what stripping gives.
pub proof fn joining_stays_within(base: Seq<char>, rel: Seq<char>)
    requires
        base.len() > 0,
        !is_absolute(rel),
        !begins_with_dot(rel),
    ensures
        is_within(join_path(base, rel), base),
        components(join_path(base, rel)).skip(components(base).len() as int) == components(rel),
{
    joining_appends_components(base, rel);
    let all = components(join_path(base, rel));
    assert(all.take(components(base).len() as int) =~= components(base));
    assert(all.skip(components(base).len() as int) =~= components(rel));
}

/// Does the list begin with the items of the other, each at the same place?
pub open spec fn begins_with_all(list: Seq<Seq<char>>, front: Seq<Seq<char>>) -> bool {
    forall|k: int| 0 <= k < front.len() ==> k < list.len() && list[k] == #[trigger] front[k]
}

proof fn lemma_begins_with_all(list: Seq<Seq<char>>, front: Seq<Seq<char>>)
    ensures
        begins_with_all(list, front) <==> front.len() <= list.len() && list.take(front.len() as int)
            == front,
{
    let n = front.len() as int;
    if begins_with_all(list, front) {
        if n > 0 {
            assert(list[n - 1] == front[n - 1]);
        }
        assert(list.take(n) =~= front);
    }
    if n <= list.len() && list.take(n) == front {
        assert forall|k: int| 0 <= k < n implies k < list.len() && list[k] == #[trigger] front[k] by {
            assert(list.take(n)[k] == list[k]);
        }
    }
}

/// A path lies within another exactly if it begins with all components of
/// that.
pub proof fn within_is_component_by_component(p: Seq<char>, base: Seq<char>)
    ensures
        is_within(p, base) <==> begins_with_all(components(p), components(base)),
{
    lemma_begins_with_all(components(p), components(base));
}

} // verus!
