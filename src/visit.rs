//! Visitors driven by a traversal, and what a traversal's record of visits
//! must satisfy.
use crate::path::AccessPath;
use crate::set::Key;
use vstd::prelude::*;

verus! {

/// One visit: the location, the data found there, and whether the visitor
/// asked to go on below it.
pub type Visit<A> = (Key, Option<A>, bool);

/// The node one step above `k`.
pub open spec fn parent(k: Key) -> Key {
    (k.0, k.1.drop_last())
}

/// Whether `k` was visited in `log`.
pub open spec fn visited<A>(log: Seq<Visit<A>>, k: Key) -> bool {
    exists|i: int| 0 <= i < log.len() && (#[trigger] log[i]).0 == k
}

/// Whether `k` was visited in `log` and the visitor asked to go on below it.
pub open spec fn continued<A>(log: Seq<Visit<A>>, k: Key) -> bool {
    exists|i: int| 0 <= i < log.len() && (#[trigger] log[i]).0 == k && log[i].2
}

/// Whether `k` starts a traversal of `m`: nothing of `m` stands above it.
pub open spec fn is_top<A>(m: Map<Key, Option<A>>, k: Key) -> bool {
    k.1.len() == 0 || !m.contains_key(parent(k))
}

/// `log` is a traversal of `m`: each visit is of a node of `m` with its data,
/// no node is visited twice, a node is visited exactly when it starts the
/// traversal or the visitor went on below the node above it, and a node is
/// visited before the nodes below it.
pub open spec fn is_walk<A>(m: Map<Key, Option<A>>, log: Seq<Visit<A>>) -> bool {
    &&& forall|i: int|
        0 <= i < log.len() ==> m.contains_key((#[trigger] log[i]).0) && log[i].1 == m[log[i].0]
    &&& forall|i: int, j: int|
        0 <= i < log.len() && 0 <= j < log.len() && i != j ==> (#[trigger] log[i]).0 != (
        #[trigger] log[j]).0
    &&& forall|k: Key| #[trigger]
        m.contains_key(k) ==> (visited(log, k) <==> (is_top(m, k) || continued(log, parent(k))))
    &&& forall|i: int, j: int|
        0 <= i < log.len() && 0 <= j < log.len() && (#[trigger] log[i]).0.1.len() > 0 && (
        #[trigger] log[j]).0 == parent(log[i].0) ==> j < i
}

/// What a traversal hands each node to: the node's path and data, and it
/// answers whether to go on below that node.
pub trait PathVisitor<A>: Sized {
    /// The visits made so far.
    spec fn visits(&self) -> Seq<Visit<A>>;

    /// The visitor's own invariant.
    spec fn ready(&self) -> bool;

    /// Visits one node; `false` asks not to visit anything below it.
    fn visit(&mut self, path: &AccessPath, data: &Option<A>) -> (go_on: bool)
        requires
            old(self).ready(),
        ensures
            final(self).ready(),
            final(self).visits() == old(self).visits().push((path@, *data, go_on)),
    ;
}

/// Two traversals of maps with no node in common, where the second starts
/// below nodes of the first only where the first went on, make one traversal
/// of both.
pub proof fn lemma_walk_union<A>(
    m1: Map<Key, Option<A>>,
    l1: Seq<Visit<A>>,
    m2: Map<Key, Option<A>>,
    l2: Seq<Visit<A>>,
)
    requires
        is_walk(m1, l1),
        is_walk(m2, l2),
        m1.dom().disjoint(m2.dom()),
        forall|k: Key| #[trigger]
            m1.contains_key(k) && k.1.len() > 0 ==> !m2.contains_key(parent(k)),
        forall|k: Key| #[trigger]
            m2.contains_key(k) && k.1.len() > 0 && m1.contains_key(parent(k)) ==> continued(
                l1,
                parent(k),
            ),
    ensures
        is_walk(m1.union_prefer_right(m2), l1 + l2),
{
    let m = m1.union_prefer_right(m2);
    let l = l1 + l2;
    assert forall|i: int| 0 <= i < l.len() implies m.contains_key((#[trigger] l[i]).0) && l[i].1
        == m[l[i].0] by {
        if i >= l1.len() {
            assert(l[i] == l2[i - l1.len()]);
        }
    }
    assert forall|i: int, j: int|
        0 <= i < l.len() && 0 <= j < l.len() && i != j implies (#[trigger] l[i]).0 != (
        #[trigger] l[j]).0 by {
        if i < l1.len() && j >= l1.len() {
            assert(l[j] == l2[j - l1.len()]);
            assert(m1.contains_key(l1[i].0));
            assert(m2.contains_key(l2[j - l1.len()].0));
        } else if i >= l1.len() && j < l1.len() {
            assert(l[i] == l2[i - l1.len()]);
            assert(m1.contains_key(l1[j].0));
            assert(m2.contains_key(l2[i - l1.len()].0));
        } else if i >= l1.len() && j >= l1.len() {
            assert(l[i] == l2[i - l1.len()]);
            assert(l[j] == l2[j - l1.len()]);
        }
    }
    assert forall|i: int, j: int|
        0 <= i < l.len() && 0 <= j < l.len() && (#[trigger] l[i]).0.1.len() > 0 && (
        #[trigger] l[j]).0 == parent(l[i].0) implies j < i by {
        if i < l1.len() && j >= l1.len() {
            assert(l[j] == l2[j - l1.len()]);
            assert(m1.contains_key(l1[i].0));
            assert(m2.contains_key(l2[j - l1.len()].0));
        } else if i >= l1.len() && j >= l1.len() {
            assert(l[i] == l2[i - l1.len()]);
            assert(l[j] == l2[j - l1.len()]);
        }
    }
    assert forall|k: Key| #[trigger] m.contains_key(k) implies (visited(l, k) <==> (is_top(m, k)
        || continued(l, parent(k)))) by {
        // visits and go-ons in `l` are those of the part whose map holds them
        assert forall|x: Key| visited(l, x) <==> (visited(l1, x) || visited(l2, x)) by {
            if visited(l, x) {
                let i = choose|i: int| 0 <= i < l.len() && (#[trigger] l[i]).0 == x;
                if i >= l1.len() {
                    assert(l[i] == l2[i - l1.len()]);
                }
            }
            if visited(l2, x) {
                let i = choose|i: int| 0 <= i < l2.len() && (#[trigger] l2[i]).0 == x;
                assert(l[i + l1.len()] == l2[i]);
            }
            if visited(l1, x) {
                let i = choose|i: int| 0 <= i < l1.len() && (#[trigger] l1[i]).0 == x;
                assert(l[i] == l1[i]);
            }
        }
        assert forall|x: Key| continued(l, x) <==> (continued(l1, x) || continued(l2, x)) by {
            if continued(l, x) {
                let i = choose|i: int| 0 <= i < l.len() && (#[trigger] l[i]).0 == x && l[i].2;
                if i >= l1.len() {
                    assert(l[i] == l2[i - l1.len()]);
                }
            }
            if continued(l2, x) {
                let i = choose|i: int| 0 <= i < l2.len() && (#[trigger] l2[i]).0 == x && l2[i].2;
                assert(l[i + l1.len()] == l2[i]);
            }
            if continued(l1, x) {
                let i = choose|i: int| 0 <= i < l1.len() && (#[trigger] l1[i]).0 == x && l1[i].2;
                assert(l[i] == l1[i]);
            }
        }
        assert forall|x: Key| visited(l1, x) implies m1.contains_key(x) by {
            let i = choose|i: int| 0 <= i < l1.len() && (#[trigger] l1[i]).0 == x;
        }
        assert forall|x: Key| visited(l2, x) implies m2.contains_key(x) by {
            let i = choose|i: int| 0 <= i < l2.len() && (#[trigger] l2[i]).0 == x;
        }
        assert forall|x: Key| continued(l1, x) implies m1.contains_key(x) by {
            let i = choose|i: int| 0 <= i < l1.len() && (#[trigger] l1[i]).0 == x && l1[i].2;
        }
        assert forall|x: Key| continued(l2, x) implies m2.contains_key(x) by {
            let i = choose|i: int| 0 <= i < l2.len() && (#[trigger] l2[i]).0 == x && l2[i].2;
        }
        if m1.contains_key(k) {
            assert(!m2.contains_key(k));
            if k.1.len() > 0 {
                assert(!m2.contains_key(parent(k)));
            }
        } else {
            assert(m2.contains_key(k));
            if k.1.len() > 0 && m1.contains_key(parent(k)) {
                assert(continued(l1, parent(k)));
                assert(!m2.contains_key(parent(k)));
            }
        }
    }
}

/// The visits of `log` that found data, in order.
pub open spec fn entries_of<A>(log: Seq<Visit<A>>) -> Seq<Visit<A>>
    decreases log.len(),
{
    if log.len() == 0 {
        Seq::empty()
    } else if log.last().1 is Some {
        entries_of(log.drop_last()).push(log.last())
    } else {
        entries_of(log.drop_last())
    }
}

/// What a visitor is shown of the traversal `log`: all of it, or with
/// `data_only` the visits that found data.
pub open spec fn shown<A>(log: Seq<Visit<A>>, data_only: bool) -> Seq<Visit<A>> {
    if data_only {
        entries_of(log)
    } else {
        log
    }
}

/// With `data_only`, every node without data was gone on below.
pub open spec fn passes_bare<A>(log: Seq<Visit<A>>, data_only: bool) -> bool {
    data_only ==> forall|i: int| 0 <= i < log.len() && (#[trigger] log[i]).1 is None ==> log[i].2
}

/// Showing two traversals one after the other shows each in turn.
pub proof fn lemma_shown_concat<A>(l1: Seq<Visit<A>>, l2: Seq<Visit<A>>, data_only: bool)
    ensures
        shown(l1 + l2, data_only) == shown(l1, data_only) + shown(l2, data_only),
        passes_bare(l1, data_only) && passes_bare(l2, data_only) ==> passes_bare(l1 + l2, data_only),
    decreases l2.len(),
{
    if data_only {
        if l2.len() == 0 {
            assert(l1 + l2 =~= l1);
            assert(entries_of(l1) + entries_of(l2) =~= entries_of(l1));
        } else {
            lemma_shown_concat(l1, l2.drop_last(), data_only);
            assert((l1 + l2).drop_last() =~= l1 + l2.drop_last());
            assert((l1 + l2).last() == l2.last());
            if l2.last().1 is Some {
                assert(entries_of(l1) + entries_of(l2.drop_last()).push(l2.last()) =~= (entries_of(l1)
                    + entries_of(l2.drop_last())).push(l2.last()));
            }
        }
        if passes_bare(l1, data_only) && passes_bare(l2, data_only) {
            assert forall|i: int| 0 <= i < (l1 + l2).len() && (#[trigger] (l1 + l2)[i]).1 is None implies (l1
                + l2)[i].2 by {
                if i >= l1.len() {
                    assert((l1 + l2)[i] == l2[i - l1.len()]);
                }
            }
        }
    } else {
        assert(l1 + l2 == l1 + l2);
    }
}

} // verus!
