//! Stable orders: the permutation that sorts a list of keys.
use crate::text::{lex_lt, lex_total, lex_transitive, text_lt, texts};
use vstd::prelude::*;

verus! {

/// Does item `a` come before item `b` when the items are ordered by their
/// texts, equal texts in the order in which they were given?
pub open spec fn text_before(keys: Seq<Seq<char>>, a: int, b: int) -> bool {
    lex_lt(keys[a], keys[b]) || keys[a] == keys[b] && a < b
}

/// `p` lists the positions of `keys` in ascending text order, each once,
/// equal texts in the order in which they were given.
pub open spec fn is_text_order(keys: Seq<Seq<char>>, p: Seq<int>) -> bool {
    &&& p.len() == keys.len()
    &&& forall|i: int| 0 <= i < p.len() ==> 0 <= #[trigger] p[i] < keys.len()
    &&& forall|i: int, j: int| 0 <= i < j < p.len() ==> text_before(keys, #[trigger] p[i], #[trigger] p[j])
    &&& forall|k: int| 0 <= k < keys.len() ==> #[trigger] p.contains(k)
}

/// Does item `a` come before item `b` when the greater depth comes first,
/// equal depths in the order in which they were given?
pub open spec fn deeper_before(depths: Seq<int>, a: int, b: int) -> bool {
    depths[a] > depths[b] || depths[a] == depths[b] && a < b
}

/// `p` lists the positions of `depths` in descending order, each once, equal
/// depths in the order in which they were given.
pub open spec fn is_depth_order(depths: Seq<int>, p: Seq<int>) -> bool {
    &&& p.len() == depths.len()
    &&& forall|i: int| 0 <= i < p.len() ==> 0 <= #[trigger] p[i] < depths.len()
    &&& forall|i: int, j: int| 0 <= i < j < p.len() ==> deeper_before(depths, #[trigger] p[i], #[trigger] p[j])
    &&& forall|k: int| 0 <= k < depths.len() ==> #[trigger] p.contains(k)
}

/// A list of machine numbers as integers.
pub open spec fn as_ints(p: Seq<usize>) -> Seq<int> {
    Seq::new(p.len(), |i: int| p[i] as int)
}

/// `s` in the order that `p` lists.
pub open spec fn arranged<A>(s: Seq<A>, p: Seq<int>) -> Seq<A> {
    Seq::new(p.len(), |i: int| s[p[i]])
}

/// Two orders of the same keys are the same order.
pub proof fn text_order_is_unique(keys: Seq<Seq<char>>, p: Seq<int>, q: Seq<int>)
    requires
        is_text_order(keys, p),
        is_text_order(keys, q),
    ensures
        p == q,
{
    text_order_agrees(keys, p, q, keys.len() as int);
    assert(p =~= q);
}

proof fn text_order_agrees(keys: Seq<Seq<char>>, p: Seq<int>, q: Seq<int>, n: int)
    requires
        is_text_order(keys, p),
        is_text_order(keys, q),
        0 <= n <= keys.len(),
    ensures
        forall|i: int| 0 <= i < n ==> p[i] == q[i],
    decreases n,
{
    if n > 0 {
        text_order_agrees(keys, p, q, n - 1);
        let a = p[n - 1];
        let b = q[n - 1];
        if a != b {
            // Each stands in the other list, and not before position n - 1.
            assert(q.contains(a));
            assert(p.contains(b));
            let i = choose|i: int| 0 <= i < q.len() && q[i] == a;
            let j = choose|j: int| 0 <= j < p.len() && p[j] == b;
            if i < n - 1 {
                assert(text_before(keys, p[i], p[n - 1]));
                lex_total(keys[a], keys[a]);
            } else if j < n - 1 {
                assert(text_before(keys, q[j], q[n - 1]));
                lex_total(keys[b], keys[b]);
            } else {
                assert(text_before(keys, q[n - 1], q[i]));
                assert(text_before(keys, p[n - 1], p[j]));
                lex_total(keys[a], keys[b]);
            }
        }
    }
}

/// Putting one more item behind every item that is not after it in text order
/// keeps the order.
proof fn text_order_grows(keys: Seq<Seq<char>>, p: Seq<int>, at: int)
    requires
        keys.len() > 0,
        is_text_order(keys.drop_last(), p),
        0 <= at <= p.len(),
        at > 0 ==> !lex_lt(keys.last(), keys[p[at - 1]]),
        forall|i: int| at <= i < p.len() ==> lex_lt(keys.last(), keys[#[trigger] p[i]]),
    ensures
        is_text_order(keys, p.insert(at, keys.len() - 1)),
{
    let m = keys.len() - 1;
    let q = p.insert(at, m);
    let done = keys.drop_last();
    assert forall|i: int| 0 <= i < at implies text_before(keys, #[trigger] p[i], m) by {
        lex_total(keys[m], keys[p[at - 1]]);
        if i < at - 1 {
            assert(text_before(done, p[i], p[at - 1]));
            if lex_lt(keys[p[i]], keys[p[at - 1]]) && lex_lt(keys[p[at - 1]], keys[m]) {
                lex_transitive(keys[p[i]], keys[p[at - 1]], keys[m]);
            }
        }
    }
    assert forall|i: int, j: int| 0 <= i < j < q.len() implies text_before(
        keys,
        #[trigger] q[i],
        #[trigger] q[j],
    ) by {
        if i != at && j != at {
            let i0 = if i < at { i } else { i - 1 };
            let j0 = if j < at { j } else { j - 1 };
            assert(text_before(done, p[i0], p[j0]));
        } else if j == at {
            assert(text_before(keys, p[i], m));
        } else {
            assert(lex_lt(keys[m], keys[p[j - 1]]));
        }
    }
    assert forall|k: int| 0 <= k < keys.len() implies #[trigger] q.contains(k) by {
        if k == m {
            assert(q[at] == k);
        } else {
            assert(p.contains(k));
            let i = choose|i: int| 0 <= i < p.len() && p[i] == k;
            if i < at {
                assert(q[i] == k);
            } else {
                assert(q[i + 1] == k);
            }
        }
    }
}

/// Every list of texts has an order.
pub proof fn text_order_exists(keys: Seq<Seq<char>>)
    ensures
        exists|p: Seq<int>| is_text_order(keys, p),
    decreases keys.len(),
{
    if keys.len() == 0 {
        assert(is_text_order(keys, Seq::empty()));
    } else {
        text_order_exists(keys.drop_last());
        let p = choose|p: Seq<int>| is_text_order(keys.drop_last(), p);
        let at = place_in_order(keys, p, p.len() as int);
        text_order_grows(keys, p, at);
    }
}

/// The place among the first `n` positions of `p` behind which the last key
/// goes.
proof fn place_in_order(keys: Seq<Seq<char>>, p: Seq<int>, n: int) -> (at: int)
    requires
        keys.len() > 0,
        0 <= n <= p.len(),
        forall|i: int| n <= i < p.len() ==> lex_lt(keys.last(), keys[#[trigger] p[i]]),
    ensures
        0 <= at <= n,
        at > 0 ==> !lex_lt(keys.last(), keys[p[at - 1]]),
        forall|i: int| at <= i < p.len() ==> lex_lt(keys.last(), keys[#[trigger] p[i]]),
    decreases n,
{
    if n > 0 && lex_lt(keys.last(), keys[p[n - 1]]) {
        place_in_order(keys, p, n - 1)
    } else {
        n
    }
}

/// Two orders of the same depths are the same order.
pub proof fn depth_order_is_unique(depths: Seq<int>, p: Seq<int>, q: Seq<int>)
    requires
        is_depth_order(depths, p),
        is_depth_order(depths, q),
    ensures
        p == q,
{
    depth_order_agrees(depths, p, q, depths.len() as int);
    assert(p =~= q);
}

proof fn depth_order_agrees(depths: Seq<int>, p: Seq<int>, q: Seq<int>, n: int)
    requires
        is_depth_order(depths, p),
        is_depth_order(depths, q),
        0 <= n <= depths.len(),
    ensures
        forall|i: int| 0 <= i < n ==> p[i] == q[i],
    decreases n,
{
    if n > 0 {
        depth_order_agrees(depths, p, q, n - 1);
        let a = p[n - 1];
        let b = q[n - 1];
        if a != b {
            assert(q.contains(a));
            assert(p.contains(b));
            let i = choose|i: int| 0 <= i < q.len() && q[i] == a;
            let j = choose|j: int| 0 <= j < p.len() && p[j] == b;
            if i < n - 1 {
                assert(deeper_before(depths, p[i], p[n - 1]));
            } else if j < n - 1 {
                assert(deeper_before(depths, q[j], q[n - 1]));
            } else {
                assert(deeper_before(depths, q[n - 1], q[i]));
                assert(deeper_before(depths, p[n - 1], p[j]));
            }
        }
    }
}

/// Lists the positions of `keys` in ascending text order, equal texts in the
/// order in which they were given.
pub fn text_order(keys: &Vec<String>) -> (p: Vec<usize>)
    ensures
        is_text_order(texts(keys@), as_ints(p@)),
{
    let mut p: Vec<usize> = Vec::new();
    let mut m: usize = 0;
    let ghost all = texts(keys@);
    assert(is_text_order(all.take(0), as_ints(p@)));
    while m < keys.len()
        invariant
            m <= keys@.len(),
            all == texts(keys@),
            is_text_order(all.take(m as int), as_ints(p@)),
        decreases keys@.len() - m,
    {
        let ghost done = all.take(m as int);
        let ghost next = all.take(m + 1);
        let ghost before = p@;
        let mut at: usize = p.len();
        proof {
            assert forall|i: int| 0 <= i < before.len() implies 0 <= #[trigger] before[i] < m by {
                assert(as_ints(before)[i] == before[i]);
            }
        }
        while at > 0 && text_lt(keys[m].as_str(), keys[p[at - 1]].as_str())
            invariant
                m < keys@.len(),
                all == texts(keys@),
                p@ == before,
                at <= p@.len(),
                forall|i: int| 0 <= i < before.len() ==> 0 <= #[trigger] before[i] < m,
                forall|i: int| at <= i < p@.len() ==> lex_lt(all[m as int], all[#[trigger] p@[i] as int]),
            decreases at,
        {
            at -= 1;
        }
        p.insert(at, m);
        proof {
            assert(next.drop_last() =~= done);
            assert forall|i: int| at <= i < before.len() implies lex_lt(
                next.last(),
                next[#[trigger] as_ints(before)[i]],
            ) by {
                assert(lex_lt(all[m as int], all[before[i] as int]));
            }
            text_order_grows(next, as_ints(before), at as int);
            assert(as_ints(p@) =~= as_ints(before).insert(at as int, m as int));
        }
        m += 1;
    }
    assert(all.take(keys@.len() as int) =~= all);
    p
}

/// Lists the positions of `depths` with the greatest first, equal depths in
/// the order in which they were given.
pub fn depth_order(depths: &Vec<usize>) -> (p: Vec<usize>)
    ensures
        is_depth_order(as_ints(depths@), as_ints(p@)),
{
    let mut p: Vec<usize> = Vec::new();
    let mut m: usize = 0;
    assert(is_depth_order(as_ints(depths@).take(0), as_ints(p@)));
    while m < depths.len()
        invariant
            m <= depths@.len(),
            is_depth_order(as_ints(depths@).take(m as int), as_ints(p@)),
        decreases depths@.len() - m,
    {
        let ghost done = as_ints(depths@).take(m as int);
        let ghost next = as_ints(depths@).take(m + 1);
        let ghost before = p@;
        let mut at: usize = p.len();
        proof {
            assert forall|i: int| 0 <= i < before.len() implies 0 <= #[trigger] before[i] < m by {
                assert(as_ints(before)[i] == before[i]);
            }
        }
        while at > 0 && depths[m] > depths[p[at - 1]]
            invariant
                m < depths@.len(),
                p@ == before,
                at <= p@.len(),
                forall|i: int| 0 <= i < before.len() ==> 0 <= #[trigger] before[i] < m,
                forall|i: int| at <= i < p@.len() ==> depths@[m as int] > depths@[#[trigger] p@[i] as int],
            decreases at,
        {
            at -= 1;
        }
        p.insert(at, m);
        proof {
            let old_p = as_ints(before);
            let new_p = as_ints(p@);
            assert forall|i: int, j: int| 0 <= i < j < new_p.len() implies deeper_before(
                next,
                #[trigger] new_p[i],
                #[trigger] new_p[j],
            ) by {
                if i != at && j != at {
                    let i0 = if i < at { i } else { i - 1 };
                    let j0 = if j < at { j } else { j - 1 };
                    assert(deeper_before(done, old_p[i0], old_p[j0]));
                } else if j == at {
                    if i < at - 1 {
                        assert(deeper_before(done, old_p[i], old_p[at - 1]));
                    }
                } else {
                    assert(depths@[m as int] > depths@[before[j - 1] as int]);
                }
            }
            assert forall|k: int| 0 <= k < next.len() implies #[trigger] new_p.contains(k) by {
                if k == m {
                    assert(new_p[at as int] == k);
                } else {
                    assert(old_p.contains(k));
                    let i = choose|i: int| 0 <= i < old_p.len() && old_p[i] == k;
                    if i < at {
                        assert(new_p[i] == k);
                    } else {
                        assert(new_p[i + 1] == k);
                    }
                }
            }
        }
        m += 1;
    }
    assert(as_ints(depths@).take(depths@.len() as int) =~= as_ints(depths@));
    p
}

} // verus!
