//! Properties of insertion and traversal that hold of every set.
use crate::node::leads;
use crate::path::{Offset, Root};
use crate::set::{with_access, Key, ReadWriteSet};
use crate::visit::{continued, entries_of, is_top, is_walk, parent, passes_bare, visited, Visit};
use vstd::prelude::*;

verus! {

/// Whether `k` lies strictly below `x`.
pub open spec fn strictly_below(k: Key, x: Key) -> bool {
    k.0 == x.0 && x.1.len() < k.1.len() && leads(x.1, k.1)
}

/// Storing at the same path twice makes no node that the first store did not
/// make, and leaves the second annotation there; all other data is kept.
pub proof fn law_store_twice<A>(s: ReadWriteSet<A>, path: Key, a: A, b: A)
    ensures
        with_access(with_access(s@, path, a), path, b).dom() == with_access(s@, path, a).dom(),
        with_access(with_access(s@, path, a), path, b)[path] == Some(b),
        forall|k: Key|
            k != path && #[trigger] with_access(s@, path, a).contains_key(k) ==> with_access(
                with_access(s@, path, a),
                path,
                b,
            )[k] == with_access(s@, path, a)[k],
{
    let once = with_access(s@, path, a);
    let twice = with_access(once, path, b);
    assert(twice.dom() =~= once.dom());
}

/// Storing `r.a.b` and then `r.a.c` in an empty set makes one node for each
/// distinct prefix: `r`, `r.a`, and the two children `r.a.b` and `r.a.c`.
pub proof fn law_shared_prefix<A>(r: Root, a: Offset, b: Offset, c: Offset, x: A, y: A)
    requires
        b != c,
    ensures
        with_access(
            with_access(Map::<Key, Option<A>>::empty(), (r, seq![a, b]), x),
            (r, seq![a, c]),
            y,
        ) == map![
            (r, Seq::<Offset>::empty()) => None,
            (r, seq![a]) => None,
            (r, seq![a, b]) => Some(x),
            (r, seq![a, c]) => Some(y),
        ],
{
    let m1 = with_access(Map::<Key, Option<A>>::empty(), (r, seq![a, b]), x);
    let m2 = with_access(m1, (r, seq![a, c]), y);
    let e = Seq::<Offset>::empty();
    let goal: Map<Key, Option<A>> = map![
        (r, e) => None,
        (r, seq![a]) => None,
        (r, seq![a, b]) => Some(x),
        (r, seq![a, c]) => Some(y),
    ];
    assert forall|k: Key| #[trigger] m2.contains_key(k) <==> goal.contains_key(k) by {
        if k.0 == r && leads(k.1, seq![a, b]) {
            if k.1.len() == 0 {
                assert(k.1 =~= e);
            } else if k.1.len() == 1 {
                assert(k.1 =~= seq![a]);
            } else {
                assert(k.1 =~= seq![a, b]);
            }
        }
        if k.0 == r && leads(k.1, seq![a, c]) {
            if k.1.len() == 0 {
                assert(k.1 =~= e);
            } else if k.1.len() == 1 {
                assert(k.1 =~= seq![a]);
            } else {
                assert(k.1 =~= seq![a, c]);
            }
        }
        if goal.contains_key(k) {
            if k == (r, seq![a]) {
                assert(leads(k.1, seq![a, b]));
            }
            if k == (r, e) {
                assert(leads(k.1, seq![a, b]));
            }
            if k == (r, seq![a, b]) {
                assert(leads(k.1, seq![a, b]));
            }
            if k == (r, seq![a, c]) {
                assert(leads(k.1, seq![a, c]));
            }
        }
    }
    assert(seq![a, b][1] != seq![a, c][1]);
    assert(seq![a, b] != seq![a, c]);
    assert(seq![a] != seq![a, c]);
    assert(e != seq![a, c]);
    assert(seq![a] != seq![a, b]);
    assert(e != seq![a, b]);
    assert(m2 =~= goal);
}

/// Storing at a path with no offsets sets the data of its root's top node
/// and changes nothing else.
pub proof fn law_store_at_root<A>(s: ReadWriteSet<A>, r: Root, a: A)
    ensures
        with_access(s@, (r, Seq::<Offset>::empty()), a) == s@.insert(
            (r, Seq::<Offset>::empty()),
            Some(a),
        ),
{
    let p = (r, Seq::<Offset>::empty());
    let m = with_access(s@, p, a);
    assert forall|k: Key| #[trigger] m.contains_key(k) <==> s@.insert(p, Some(a)).contains_key(k) by {
        if k.0 == r && leads(k.1, p.1) {
            assert(k.1 =~= p.1);
        }
    }
    assert(m =~= s@.insert(p, Some(a)));
}

/// The visits with data are visits of the traversal, and each of its visits
/// with data is one of them.
pub proof fn lemma_entries_of<A>(log: Seq<Visit<A>>)
    ensures
        forall|i: int|
            0 <= i < entries_of(log).len() ==> exists|j: int|
                0 <= j < log.len() && log[j] == #[trigger] entries_of(log)[i],
        forall|i: int|
            0 <= i < entries_of(log).len() ==> (#[trigger] entries_of(log)[i]).1 is Some,
        forall|j: int|
            0 <= j < log.len() && (#[trigger] log[j]).1 is Some ==> exists|i: int|
                0 <= i < entries_of(log).len() && entries_of(log)[i] == log[j],
        (forall|i: int, j: int|
            0 <= i < log.len() && 0 <= j < log.len() && i != j ==> (#[trigger] log[i]).0 != (
            #[trigger] log[j]).0) ==> forall|i: int, j: int|
            0 <= i < entries_of(log).len() && 0 <= j < entries_of(log).len() && i != j ==> (
            #[trigger] entries_of(log)[i]).0 != (#[trigger] entries_of(log)[j]).0,
    decreases log.len(),
{
    if log.len() > 0 {
        let front = log.drop_last();
        lemma_entries_of(front);
        let e = entries_of(front);
        let all = entries_of(log);
        assert forall|i: int| 0 <= i < all.len() implies exists|j: int|
            0 <= j < log.len() && log[j] == #[trigger] all[i] by {
            if i < e.len() {
                let j = choose|j: int| 0 <= j < front.len() && front[j] == #[trigger] e[i];
                assert(log[j] == all[i]);
            } else {
                assert(log[log.len() - 1] == all[i]);
            }
        }
        assert forall|j: int| 0 <= j < log.len() && (#[trigger] log[j]).1 is Some implies exists|i: int|
            0 <= i < all.len() && all[i] == log[j] by {
            if j < front.len() {
                assert(front[j] == log[j]);
                let i = choose|i: int| 0 <= i < e.len() && e[i] == front[j];
                assert(all[i] == e[i]);
            } else {
                assert(all[all.len() - 1] == log[j]);
            }
        }
        if forall|i: int, j: int|
            0 <= i < log.len() && 0 <= j < log.len() && i != j ==> (#[trigger] log[i]).0 != (
            #[trigger] log[j]).0 {
            assert forall|i: int, j: int|
                0 <= i < front.len() && 0 <= j < front.len() && i != j implies (
                #[trigger] front[i]).0 != (#[trigger] front[j]).0 by {
                assert(front[i] == log[i] && front[j] == log[j]);
            }
            assert forall|i: int, j: int|
                0 <= i < all.len() && 0 <= j < all.len() && i != j implies (#[trigger] all[i]).0 != (
                #[trigger] all[j]).0 by {
                if i < e.len() && j < e.len() {
                    assert(all[i] == e[i] && all[j] == e[j]);
                } else if i < e.len() {
                    let x = choose|x: int| 0 <= x < front.len() && front[x] == #[trigger] e[i];
                    assert(log[x] == front[x]);
                    assert(all[j] == log[log.len() - 1]);
                } else if j < e.len() {
                    let x = choose|x: int| 0 <= x < front.len() && front[x] == #[trigger] e[j];
                    assert(log[x] == front[x]);
                    assert(all[i] == log[log.len() - 1]);
                }
            }
        }
    }
}

/// Where the visitor goes on everywhere, every node of the set is visited.
pub proof fn lemma_all_visited<A>(s: ReadWriteSet<A>, log: Seq<Visit<A>>, k: Key)
    requires
        is_walk(s@, log),
        forall|i: int| 0 <= i < log.len() ==> (#[trigger] log[i]).2,
        s@.contains_key(k),
    ensures
        visited(log, k),
    decreases k.1.len(),
{
    if k.1.len() > 0 {
        s.lemma_prefix_closed(k);
        lemma_all_visited(s, log, parent(k));
        let i = choose|i: int| 0 <= i < log.len() && (#[trigger] log[i]).0 == parent(k);
        assert(continued(log, parent(k)));
    }
}

/// With a visitor that goes on at every stored path, `iter_paths` shows each
/// stored path exactly once with its annotation, and nothing else.
pub proof fn law_all_entries_shown<A>(s: ReadWriteSet<A>, log: Seq<Visit<A>>)
    requires
        is_walk(s@, log),
        passes_bare(log, true),
        forall|i: int| 0 <= i < entries_of(log).len() ==> (#[trigger] entries_of(log)[i]).2,
    ensures
        forall|i: int|
            0 <= i < entries_of(log).len() ==> s@.contains_key((#[trigger] entries_of(log)[i]).0)
                && entries_of(log)[i].1 == s@[entries_of(log)[i].0] && entries_of(log)[i].1 is Some,
        forall|i: int, j: int|
            0 <= i < entries_of(log).len() && 0 <= j < entries_of(log).len() && i != j ==> (
            #[trigger] entries_of(log)[i]).0 != (#[trigger] entries_of(log)[j]).0,
        forall|k: Key|
            #[trigger] s@.contains_key(k) && s@[k] is Some ==> exists|i: int|
                0 <= i < entries_of(log).len() && entries_of(log)[i].0 == k,
{
    lemma_entries_of(log);
    let e = entries_of(log);
    assert forall|i: int| 0 <= i < log.len() implies (#[trigger] log[i]).2 by {
        if log[i].1 is Some {
            let j = choose|j: int| 0 <= j < e.len() && e[j] == log[i];
        }
    }
    assert forall|i: int| 0 <= i < e.len() implies s@.contains_key((#[trigger] e[i]).0) && e[i].1
        == s@[e[i].0] && e[i].1 is Some by {
        let j = choose|j: int| 0 <= j < log.len() && log[j] == #[trigger] e[i];
    }
    assert forall|k: Key| #[trigger] s@.contains_key(k) && s@[k] is Some implies exists|i: int|
        0 <= i < e.len() && e[i].0 == k by {
        lemma_all_visited(s, log, k);
        let j = choose|j: int| 0 <= j < log.len() && (#[trigger] log[j]).0 == k;
        let i = choose|i: int| 0 <= i < e.len() && e[i] == log[j];
    }
}

/// Where the visitor stops at `x` alone, `iter_paths_opt` visits every node
/// of the set except those strictly below `x`.
pub proof fn law_stop_prunes_subtree_only<A>(s: ReadWriteSet<A>, log: Seq<Visit<A>>, x: Key)
    requires
        is_walk(s@, log),
        forall|i: int| 0 <= i < log.len() ==> (#[trigger] log[i]).2 == (log[i].0 != x),
    ensures
        forall|k: Key| #[trigger]
            s@.contains_key(k) ==> (visited(log, k) <==> !strictly_below(k, x)),
{
    assert forall|k: Key| #[trigger] s@.contains_key(k) implies (visited(log, k) <==> !strictly_below(
        k,
        x,
    )) by {
        lemma_stop_prunes(s, log, x, k);
    }
}

proof fn lemma_stop_prunes<A>(s: ReadWriteSet<A>, log: Seq<Visit<A>>, x: Key, k: Key)
    requires
        is_walk(s@, log),
        forall|i: int| 0 <= i < log.len() ==> (#[trigger] log[i]).2 == (log[i].0 != x),
        s@.contains_key(k),
    ensures
        visited(log, k) <==> !strictly_below(k, x),
    decreases k.1.len(),
{
    if k.1.len() > 0 {
        let p = parent(k);
        s.lemma_prefix_closed(k);
        lemma_stop_prunes(s, log, x, p);
        assert(!is_top(s@, k));
        assert(continued(log, p) <==> (visited(log, p) && p != x)) by {
            if visited(log, p) && p != x {
                let i = choose|i: int| 0 <= i < log.len() && (#[trigger] log[i]).0 == p;
                assert(log[i].2);
            }
        }
        assert(strictly_below(k, x) <==> (strictly_below(p, x) || p == x)) by {
            if strictly_below(k, x) && !strictly_below(p, x) {
                assert(p.1 =~= x.1);
            }
            if p == x {
                assert forall|j: int| 0 <= j < x.1.len() implies x.1[j] == k.1[j] by {
                    assert(p.1[j] == k.1[j]);
                }
            }
            if strictly_below(p, x) {
                assert forall|j: int| 0 <= j < x.1.len() implies x.1[j] == k.1[j] by {
                    assert(x.1[j] == p.1[j]);
                }
            }
        }
    }
}

} // verus!
