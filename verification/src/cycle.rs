//! Dependency relations between tasks: walks, cycles and orders that respect them.
//!
//! An edge `(a, b)` means that task `a` depends on task `b`: `b` has to be
//! finished before `a` can start.

use vstd::prelude::*;

verus! {

/// The task at position `i` of `p` depends on the task at position `i + 1`.
pub open spec fn is_step<A>(edges: Set<(A, A)>, p: Seq<A>, i: int) -> bool {
    edges.contains((p[i], p[i + 1]))
}

/// Every task in `p` depends on the task that follows it.
pub open spec fn is_walk<A>(edges: Set<(A, A)>, p: Seq<A>) -> bool {
    forall|i: int| 0 <= i < p.len() - 1 ==> #[trigger] is_step(edges, p, i)
}

/// Some task depends on itself, directly or through other tasks.
pub open spec fn has_cycle<A>(edges: Set<(A, A)>) -> bool {
    exists|p: Seq<A>| p.len() >= 2 && p[0] == p.last() && #[trigger] is_walk(edges, p)
}

/// `order` lists no task twice and places every task after each task it depends on.
pub open spec fn respects(edges: Set<(u128, u128)>, order: Seq<u128>) -> bool {
    &&& order.no_duplicates()
    &&& forall|i: int, j: int|
        0 <= i < order.len() && 0 <= j < order.len() && #[trigger] edges.contains(
            (order[i], order[j]),
        ) ==> j < i
}

/// Every task that depends on something is listed in `order`.
pub open spec fn covers(edges: Set<(u128, u128)>, order: Seq<u128>) -> bool {
    forall|e: (u128, u128)| #[trigger] edges.contains(e) ==> order.contains(e.0)
}

proof fn lemma_walk_descends(edges: Set<(u128, u128)>, order: Seq<u128>, p: Seq<u128>, k: int)
    requires
        respects(edges, order),
        covers(edges, order),
        is_walk(edges, p),
        1 <= k < p.len(),
        order.contains(p[k]),
    ensures
        order.index_of(p[k]) < order.index_of(p[0]),
    decreases k,
{
    assert(is_step(edges, p, k - 1));
    assert(edges.contains((p[k - 1], p[k])));
    assert(order.contains(p[k - 1]));
    let a = order.index_of(p[k - 1]);
    let b = order.index_of(p[k]);
    assert(order[a] == p[k - 1] && order[b] == p[k]);
    assert(b < a);
    if k > 1 {
        lemma_walk_descends(edges, order, p, k - 1);
    }
}

/// An order that respects every dependency and lists every dependent task rules out cycles.
pub proof fn lemma_order_excludes_cycle(edges: Set<(u128, u128)>, order: Seq<u128>)
    requires
        respects(edges, order),
        covers(edges, order),
    ensures
        !has_cycle(edges),
{
    if has_cycle(edges) {
        let p = choose|p: Seq<u128>| p.len() >= 2 && p[0] == p.last() && #[trigger] is_walk(edges, p);
        let k = p.len() - 1;
        assert(is_step(edges, p, 0));
        assert(edges.contains((p[0], p[1])));
        lemma_walk_descends(edges, order, p, k);
    }
}

/// A walk of `n` steps from `x` that never leaves `s`.
pub open spec fn walk_within<A>(edges: Set<(A, A)>, s: Set<A>, x: A, n: nat) -> Seq<A>
    decreases n,
{
    if n == 0 {
        seq![x]
    } else {
        let y = choose|y: A| s.contains(y) && edges.contains((x, y));
        seq![x] + walk_within(edges, s, y, (n - 1) as nat)
    }
}

/// Every task of `s` depends on some task of `s`.
pub open spec fn closed_under_deps<A>(edges: Set<(A, A)>, s: Set<A>) -> bool {
    forall|x: A| #[trigger] s.contains(x) ==> exists|y: A| s.contains(y) && edges.contains((x, y))
}

proof fn lemma_walk_within<A>(edges: Set<(A, A)>, s: Set<A>, x: A, n: nat)
    requires
        closed_under_deps(edges, s),
        s.contains(x),
    ensures
        walk_within(edges, s, x, n).len() == n + 1,
        walk_within(edges, s, x, n)[0] == x,
        is_walk(edges, walk_within(edges, s, x, n)),
        forall|i: int|
            0 <= i < n + 1 ==> #[trigger] s.contains(walk_within(edges, s, x, n)[i]),
    decreases n,
{
    if n > 0 {
        let y = choose|y: A| s.contains(y) && edges.contains((x, y));
        lemma_walk_within(edges, s, y, (n - 1) as nat);
        let w = walk_within(edges, s, x, n);
        let rest = walk_within(edges, s, y, (n - 1) as nat);
        assert(w =~= seq![x] + rest);
        assert forall|i: int| 0 <= i < w.len() - 1 implies #[trigger] is_step(edges, w, i) by {
            if i > 0 {
                assert(w[i] == rest[i - 1] && w[i + 1] == rest[i]);
                assert(is_step(edges, rest, i - 1));
            }
        }
        assert forall|i: int| 0 <= i < n + 1 implies #[trigger] s.contains(w[i]) by {
            if i > 0 {
                assert(w[i] == rest[i - 1]);
            }
        }
    }
}

/// A non-empty finite set of tasks in which each task waits for another task of the set
/// contains a cycle.
pub proof fn lemma_closed_set_has_cycle<A>(edges: Set<(A, A)>, s: Set<A>)
    requires
        s.finite(),
        s.len() > 0,
        closed_under_deps(edges, s),
    ensures
        has_cycle(edges),
{
    let x = s.choose();
    let n = s.len();
    lemma_walk_within(edges, s, x, n);
    let w = walk_within(edges, s, x, n);
    if w.no_duplicates() {
        w.unique_seq_to_set();
        assert(w.to_set().subset_of(s)) by {
            assert forall|v: A| w.to_set().contains(v) implies s.contains(v) by {
                let i = choose|i: int| 0 <= i < w.len() && w[i] == v;
                assert(s.contains(w[i]));
            }
        }
        vstd::set_lib::lemma_len_subset(w.to_set(), s);
        assert(false);
    }
    let (i, j) = choose|i: int, j: int| 0 <= i < w.len() && 0 <= j < w.len() && i != j && w[i] == w[j];
    let lo = if i < j { i } else { j };
    let hi = if i < j { j } else { i };
    let c = w.subrange(lo, hi + 1);
    assert(c.len() >= 2);
    assert(c[0] == c.last());
    assert forall|k: int| 0 <= k < c.len() - 1 implies #[trigger] is_step(edges, c, k) by {
        assert(c[k] == w[lo + k] && c[k + 1] == w[lo + k + 1]);
        assert(is_step(edges, w, lo + k));
    }
    assert(is_walk(edges, c));
}

} // verus!
