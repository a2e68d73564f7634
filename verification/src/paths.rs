//! Walks, reachability and acyclicity of a dependency relation given as a
//! sequence of edges between system identifiers.
use vstd::prelude::*;

verus! {

/// The step from the `i`-th vertex of `p` to the next one is an edge of `edges`.
pub open spec fn has_step(edges: Seq<(u64, u64)>, p: Seq<u64>, i: int) -> bool {
    edges.contains((p[i], p[i + 1]))
}

/// `p` follows edges of `edges` from each of its vertices to the next one.
pub open spec fn is_walk(edges: Seq<(u64, u64)>, p: Seq<u64>) -> bool {
    forall|i: int| 0 <= i < p.len() - 1 ==> #[trigger] has_step(edges, p, i)
}

/// `b` can be reached from `a` by following zero or more edges.
pub open spec fn connected(edges: Seq<(u64, u64)>, a: u64, b: u64) -> bool {
    exists|p: Seq<u64>| #[trigger] is_walk(edges, p) && p.len() >= 1 && p[0] == a && p.last() == b
}

/// No walk of one edge or more comes back to where it started.
pub open spec fn acyclic(edges: Seq<(u64, u64)>) -> bool {
    forall|p: Seq<u64>| #[trigger] is_walk(edges, p) && p.len() >= 2 ==> p[0] != p.last()
}

/// Every endpoint of every edge is one of `nodes`.
pub open spec fn edges_within(edges: Seq<(u64, u64)>, nodes: Seq<u64>) -> bool {
    forall|i: int|
        #![trigger edges[i]]
        0 <= i < edges.len() ==> nodes.contains(edges[i].0) && nodes.contains(edges[i].1)
}

/// A walk stays a walk when edges are added to the relation.
pub proof fn lemma_walk_superset(e: Seq<(u64, u64)>, f: Seq<(u64, u64)>, p: Seq<u64>)
    requires
        is_walk(e, p),
        forall|x: (u64, u64)| e.contains(x) ==> f.contains(x),
    ensures
        is_walk(f, p),
{
    assert forall|i: int| 0 <= i < p.len() - 1 implies #[trigger] has_step(f, p, i) by {
        assert(has_step(e, p, i));
    }
}

/// Every edge of `e` is an edge of `e + f`.
pub proof fn lemma_contains_prefix(e: Seq<(u64, u64)>, f: Seq<(u64, u64)>)
    ensures
        forall|x: (u64, u64)| e.contains(x) ==> (e + f).contains(x),
{
    assert forall|x: (u64, u64)| e.contains(x) implies (e + f).contains(x) by {
        let i = choose|i: int| 0 <= i < e.len() && e[i] == x;
        assert((e + f)[i] == x);
    }
}

/// Two walks that meet end to start make one walk.
pub proof fn lemma_walk_concat(e: Seq<(u64, u64)>, p: Seq<u64>, q: Seq<u64>)
    requires
        is_walk(e, p),
        is_walk(e, q),
        p.len() >= 1,
        q.len() >= 1,
        p.last() == q[0],
    ensures
        is_walk(e, p + q.drop_first()),
        (p + q.drop_first()).len() == p.len() + q.len() - 1,
        (p + q.drop_first())[0] == p[0],
        (p + q.drop_first()).last() == q.last(),
{
    let r = p + q.drop_first();
    assert forall|i: int| 0 <= i < r.len() - 1 implies #[trigger] has_step(e, r, i) by {
        if i < p.len() - 1 {
            assert(has_step(e, p, i));
        } else {
            let k = i - (p.len() - 1);
            assert(r[i] == q[k]);
            assert(r[i + 1] == q[k + 1]);
            assert(has_step(e, q, k));
        }
    }
}

/// Reachability is transitive.
pub proof fn lemma_connected_trans(e: Seq<(u64, u64)>, a: u64, b: u64, c: u64)
    requires
        connected(e, a, b),
        connected(e, b, c),
    ensures
        connected(e, a, c),
{
    let p = choose|p: Seq<u64>| #[trigger] is_walk(e, p) && p.len() >= 1 && p[0] == a && p.last() == b;
    let q = choose|q: Seq<u64>| #[trigger] is_walk(e, q) && q.len() >= 1 && q[0] == b && q.last() == c;
    lemma_walk_concat(e, p, q);
    assert(is_walk(e, p + q.drop_first()));
}

/// Every vertex is reachable from itself.
pub proof fn lemma_connected_refl(e: Seq<(u64, u64)>, a: u64)
    ensures
        connected(e, a, a),
{
    let p = seq![a];
    assert(is_walk(e, p));
}

/// A walk after one edge `(a, b)` was added either avoids that edge, or runs
/// from its start to `a` and from `b` to its end over the old edges.
pub proof fn lemma_walk_after_push(e: Seq<(u64, u64)>, a: u64, b: u64, p: Seq<u64>)
    requires
        is_walk(e.push((a, b)), p),
        p.len() >= 1,
    ensures
        is_walk(e, p) || (connected(e, p[0], a) && connected(e, b, p.last())),
    decreases p.len(),
{
    let f = e.push((a, b));
    if p.len() == 1 {
        assert(is_walk(e, p));
    } else {
        let q = p.drop_first();
        assert forall|i: int| 0 <= i < q.len() - 1 implies #[trigger] has_step(f, q, i) by {
            assert(has_step(f, p, i + 1));
        }
        lemma_walk_after_push(e, a, b, q);
        assert(has_step(f, p, 0));
        let j = choose|j: int| 0 <= j < f.len() && f[j] == (p[0], p[1]);
        if j < e.len() {
            // the first step is an old edge
            assert(e.contains((p[0], p[1])));
            let two = seq![p[0], p[1]];
            assert(is_walk(e, two));
            if is_walk(e, q) {
                assert forall|i: int| 0 <= i < p.len() - 1 implies #[trigger] has_step(e, p, i) by {
                    if i > 0 {
                        assert(has_step(e, q, i - 1));
                    }
                }
            } else {
                assert(connected(e, p[0], p[1]));
                lemma_connected_trans(e, p[0], p[1], a);
            }
        } else {
            // the first step is the new edge
            assert(p[0] == a && p[1] == b);
            lemma_connected_refl(e, a);
            if is_walk(e, q) {
                assert(is_walk(e, q) && q.len() >= 1 && q[0] == b && q.last() == p.last());
            }
        }
    }
}

/// Adding an edge `(a, b)` to an acyclic relation keeps it acyclic when `a`
/// cannot be reached from `b`.
pub proof fn lemma_push_keeps_acyclic(e: Seq<(u64, u64)>, a: u64, b: u64)
    requires
        acyclic(e),
        !connected(e, b, a),
    ensures
        acyclic(e.push((a, b))),
{
    let f = e.push((a, b));
    assert forall|p: Seq<u64>| #[trigger] is_walk(f, p) && p.len() >= 2 implies p[0] != p.last() by {
        lemma_walk_after_push(e, a, b, p);
        if !is_walk(e, p) && p[0] == p.last() {
            lemma_connected_trans(e, b, p.last(), a);
        }
    }
}

/// Adding an edge `(a, b)` when `a` can be reached from `b` closes a cycle.
pub proof fn lemma_push_closes_cycle(e: Seq<(u64, u64)>, a: u64, b: u64)
    requires
        connected(e, b, a),
    ensures
        !acyclic(e.push((a, b))),
{
    let f = e.push((a, b));
    let q = choose|q: Seq<u64>| #[trigger] is_walk(e, q) && q.len() >= 1 && q[0] == b && q.last() == a;
    assert(forall|x: (u64, u64)| e.contains(x) ==> f.contains(x)) by {
        lemma_contains_prefix(e, seq![(a, b)]);
        assert(f == e + seq![(a, b)]);
    }
    lemma_walk_superset(e, f, q);
    let p = seq![a] + q;
    assert(f[e.len() as int] == (a, b));
    assert forall|i: int| 0 <= i < p.len() - 1 implies #[trigger] has_step(f, p, i) by {
        if i == 0 {
            assert(f.contains((a, b)));
        } else {
            assert(has_step(f, q, i - 1));
        }
    }
    assert(is_walk(f, p) && p.len() >= 2);
}

/// A relation that holds a cycle keeps it when more edges are appended.
pub proof fn lemma_cycle_persists(e: Seq<(u64, u64)>, f: Seq<(u64, u64)>)
    requires
        !acyclic(e),
    ensures
        !acyclic(e + f),
{
    let p = choose|p: Seq<u64>| #[trigger] is_walk(e, p) && p.len() >= 2 && p[0] == p.last();
    lemma_contains_prefix(e, f);
    lemma_walk_superset(e, e + f, p);
}

/// In an acyclic relation over distinct `nodes`, a walk of one edge or more
/// visits at most as many vertices as there are nodes.
pub proof fn lemma_walk_bounded(e: Seq<(u64, u64)>, nodes: Seq<u64>, p: Seq<u64>)
    requires
        acyclic(e),
        edges_within(e, nodes),
        nodes.no_duplicates(),
        is_walk(e, p),
        p.len() >= 2,
    ensures
        p.len() <= nodes.len(),
{
    assert forall|i: int| 0 <= i < p.len() implies nodes.contains(#[trigger] p[i]) by {
        if i < p.len() - 1 {
            assert(has_step(e, p, i));
            let k = choose|k: int| 0 <= k < e.len() && e[k] == (p[i], p[i + 1]);
            assert(nodes.contains(e[k].0));
        } else {
            assert(has_step(e, p, i - 1));
            let k = choose|k: int| 0 <= k < e.len() && e[k] == (p[i - 1], p[i]);
            assert(nodes.contains(e[k].1));
        }
    }
    if p.len() > nodes.len() {
        assert(p.to_set().subset_of(nodes.to_set())) by {
            assert forall|x: u64| p.to_set().contains(x) implies nodes.to_set().contains(x) by {
                let i = choose|i: int| 0 <= i < p.len() && p[i] == x;
                assert(nodes.contains(p[i]));
            }
        }
        vstd::seq_lib::seq_to_set_is_finite(nodes);
        vstd::set_lib::lemma_len_subset(p.to_set(), nodes.to_set());
        nodes.unique_seq_to_set();
        if p.no_duplicates() {
            p.unique_seq_to_set();
        }
        assert(!p.no_duplicates());
        let (i, j) = choose|i: int, j: int|
            0 <= i < p.len() && 0 <= j < p.len() && i != j && p[i] == p[j];
        let lo = if i < j { i } else { j };
        let hi = if i < j { j } else { i };
        let c = p.subrange(lo, hi + 1);
        assert forall|k: int| 0 <= k < c.len() - 1 implies #[trigger] has_step(e, c, k) by {
            assert(has_step(e, p, lo + k));
        }
        assert(is_walk(e, c) && c.len() >= 2);
        assert(c[0] == c.last());
    }
}

} // verus!
