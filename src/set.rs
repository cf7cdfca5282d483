//! The read/write set: one trie per root.
use crate::node::{empty_node, leads, placed, TrieNode};
use crate::path::{AccessPath, Offset, Root};
use crate::visit::{
    entries_of, is_walk, lemma_shown_concat, lemma_walk_union, parent, passes_bare, shown, PathVisitor, Visit,
};
use vstd::prelude::*;

verus! {

/// A location of the set: a root and the offsets below it.
pub type Key = (Root, Seq<Offset>);

/// The contents `m` after storing `a` at `path`: every prefix of `path` under
/// its root becomes a node, `path` carries `a`, all else is kept.
pub open spec fn with_access<A>(m: Map<Key, Option<A>>, path: Key, a: A) -> Map<Key, Option<A>> {
    Map::new(
        |k: Key| m.contains_key(k) || (k.0 == path.0 && leads(k.1, path.1)),
        |k: Key|
            if k == path {
                Some(a)
            } else if m.contains_key(k) {
                m[k]
            } else {
                None
            },
    )
}

/// The stored paths of a read/write set, as a forest keyed by root.
#[derive(Debug)]
pub struct ReadWriteSet<A> {
    pub(crate) roots: Vec<(Root, TrieNode<A>)>,
}

impl<A> ReadWriteSet<A> {
    /// The roots with their tries.
    pub open(crate) spec fn trees(&self) -> Seq<(Root, TrieNode<A>)> {
        self.roots@
    }

    /// Whether some trie has root `r`.
    pub open spec fn has_root(&self, r: Root) -> bool {
        exists|i: int| 0 <= i < self.trees().len() && #[trigger] self.trees()[i].0 == r
    }

    /// The position of the trie with root `r`.
    pub open spec fn root_index(&self, r: Root) -> int {
        choose|i: int| 0 <= i < self.trees().len() && #[trigger] self.trees()[i].0 == r
    }

    /// Every node of the forest, as root and offsets, with its data.
    pub open spec fn view(&self) -> Map<Key, Option<A>> {
        Map::new(
            |k: Key| self.has_root(k.0) && self.trees()[self.root_index(k.0)].1@.contains_key(k.1),
            |k: Key| self.trees()[self.root_index(k.0)].1@[k.1],
        )
    }

    /// Roots are unique and every trie is well formed.
    pub open spec fn wf(&self) -> bool {
        &&& forall|i: int, j: int|
            0 <= i < self.trees().len() && 0 <= j < self.trees().len() && #[trigger] self.trees()[i].0
                == #[trigger] self.trees()[j].0 ==> i == j
        &&& forall|i: int| 0 <= i < self.trees().len() ==> #[trigger] self.trees()[i].1.wf()
    }

    /// With unique roots, `i` is where the trie of `trees[i].0` stands.
    pub proof fn lemma_index(&self, i: int)
        requires
            self.wf(),
            0 <= i < self.trees().len(),
        ensures
            self.has_root(self.trees()[i].0),
            self.root_index(self.trees()[i].0) == i,
    {
        assert(self.has_root(self.trees()[i].0));
    }

    /// Every node of the set other than a root's hangs below another node of
    /// it.
    pub proof fn lemma_prefix_closed(&self, k: Key)
        requires
            self@.contains_key(k),
            k.1.len() > 0,
        ensures
            self@.contains_key(parent(k)),
    {
        self.trees()[self.root_index(k.0)].1.lemma_prefix_closed(k.1);
    }

    /// The top node of the trie with root `r`, if there is one.
    pub fn root_node(&self, r: &Root) -> (res: Option<&TrieNode<A>>)
        requires
            self.wf(),
        ensures
            res is None <==> !self@.contains_key((*r, Seq::<Offset>::empty())),
            res matches Some(n) ==> *n == self.trees()[self.root_index(*r)].1 && n.wf(),
    {
        match self.find(r) {
            Some(i) => {
                proof {
                    self.lemma_index(i as int);
                    self.trees()[i as int].1.lemma_top();
                }
                Some(&self.roots[i].1)
            },
            None => None,
        }
    }

    /// An empty set.
    pub fn new() -> (r: ReadWriteSet<A>)
        ensures
            r.wf(),
            r@ == Map::<Key, Option<A>>::empty(),
    {
        let r = ReadWriteSet { roots: Vec::new() };
        assert(r@ =~= Map::<Key, Option<A>>::empty());
        r
    }

    /// The position of the trie with root `r`, if there is one.
    fn find(&self, r: &Root) -> (res: Option<usize>)
        ensures
            res is None <==> !self.has_root(*r),
            res matches Some(i) ==> i < self.trees().len() && self.trees()[i as int].0 == *r,
    {
        let mut i: usize = 0;
        while i < self.roots.len()
            invariant
                i <= self.trees().len(),
                forall|j: int| 0 <= j < i ==> self.trees()[j].0 != *r,
            decreases self.trees().len() - i,
        {
            if self.roots[i].0.same_as(r) {
                return Some(i);
            }
            i += 1;
        }
        None
    }

    /// Stores `access` at `access_path`, creating the nodes on the way; data
    /// stored there before is replaced.
    pub fn add_access_path(&mut self, access_path: AccessPath, access: A)
        requires
            old(self).wf(),
        ensures
            final(self).wf(),
            final(self)@ == with_access(old(self)@, access_path@, access),
    {
        let ghost before = *self;
        let ghost path = access_path@;
        let i: usize = match self.find(&access_path.root) {
            Some(i) => i,
            None => {
                self.roots.push((access_path.root.duplicate(), TrieNode::new()));
                self.roots.len() - 1
            },
        };
        let ghost had = before.has_root(path.0);
        let ghost t0 = self.trees()[i as int].1;
        proof {
            if had {
                before.lemma_index(i as int);
            }
            assert(t0.wf());
        }
        self.roots[i].1.insert(&access_path.offsets, 0, access);
        proof {
            let after = *self;
            let t1 = after.trees()[i as int].1;
            assert(access_path.offsets@.skip(0) =~= path.1);
            assert forall|j: int| 0 <= j < after.trees().len() && j != i implies #[trigger] after.trees()[j]
                == before.trees()[j] by {}
            assert(after.trees()[i as int].0 == path.0);
            assert(after.wf()) by {
                assert forall|j: int, k: int|
                    0 <= j < after.trees().len() && 0 <= k < after.trees().len()
                        && #[trigger] after.trees()[j].0 == #[trigger] after.trees()[k].0 implies j == k by {
                    if j != i && k != i {
                        assert(before.trees()[j].0 == before.trees()[k].0);
                    } else if had {
                        assert(before.trees()[j].0 == before.trees()[k].0);
                    } else if j != i {
                        assert(before.has_root(path.0));
                    } else if k != i {
                        assert(before.trees()[k].0 == path.0);
                        assert(before.has_root(path.0));
                    }
                }
            }
            after.lemma_index(i as int);
            let goal = with_access(before@, path, access);
            assert forall|k: Key| #[trigger] after@.contains_key(k) == goal.contains_key(k) && (
            after@.contains_key(k) ==> after@[k] == goal[k]) by {
                if k.0 == path.0 {
                    if had {
                        before.lemma_index(i as int);
                    } else {
                        assert(t0@ == empty_node::<A>());
                    }
                } else {
                    if after.has_root(k.0) {
                        let j = after.root_index(k.0);
                        assert(before.trees()[j].0 == k.0);
                        before.lemma_index(j);
                    }
                    if before.has_root(k.0) {
                        let j = before.root_index(k.0);
                        assert(after.trees()[j].0 == k.0);
                        after.lemma_index(j);
                    }
                }
            }
            assert(after@ =~= goal);
        }
    }

    /// The part of the set under its first `i` roots.
    pub open spec fn first_roots(&self, i: int) -> Map<Key, Option<A>> {
        Map::new(
            |k: Key|
                self@.contains_key(k) && exists|j: int| 0 <= j < i && #[trigger] self.trees()[j].0 == k.0,
            |k: Key| self@[k],
        )
    }

    proof fn lemma_walk_step(&self, i: int, l1: Seq<Visit<A>>, l2: Seq<Visit<A>>)
        requires
            self.wf(),
            0 <= i < self.trees().len(),
            is_walk(self.first_roots(i), l1),
            is_walk(placed(self.trees()[i].1@, (self.trees()[i].0, Seq::<Offset>::empty())), l2),
        ensures
            is_walk(self.first_roots(i + 1), l1 + l2),
    {
        let r = self.trees()[i].0;
        let m1 = self.first_roots(i);
        let m2 = placed(self.trees()[i].1@, (r, Seq::<Offset>::empty()));
        self.lemma_index(i);
        assert forall|k: Key| #[trigger] m2.contains_key(k) <==> (self@.contains_key(k) && k.0 == r) by {
            assert(k.1.skip(0) =~= k.1);
        }
        assert forall|k: Key| #[trigger] m2.contains_key(k) implies m2[k] == self@[k] by {
            assert(k.1.skip(0) =~= k.1);
        }
        assert(m1.dom().disjoint(m2.dom())) by {
            assert forall|k: Key| m1.contains_key(k) && m2.contains_key(k) implies false by {
                let j = choose|j: int| 0 <= j < i && #[trigger] self.trees()[j].0 == k.0;
            }
        }
        assert forall|k: Key| #[trigger] m1.contains_key(k) && k.1.len() > 0 implies !m2.contains_key(
            parent(k),
        ) by {
            let j = choose|j: int| 0 <= j < i && #[trigger] self.trees()[j].0 == k.0;
        }
        assert forall|k: Key| #[trigger]
            m2.contains_key(k) && k.1.len() > 0 && m1.contains_key(parent(k)) implies false by {
            let j = choose|j: int| 0 <= j < i && #[trigger] self.trees()[j].0 == parent(k).0;
        }
        lemma_walk_union(m1, l1, m2, l2);
        let m = self.first_roots(i + 1);
        assert forall|k: Key| #[trigger] m.contains_key(k) == m1.union_prefer_right(m2).contains_key(k) by {
            if m.contains_key(k) && !m2.contains_key(k) {
                let j = choose|j: int| 0 <= j < i + 1 && #[trigger] self.trees()[j].0 == k.0;
                assert(j != i);
            }
            if m2.contains_key(k) {
                assert(self.trees()[i].0 == k.0);
            }
            if m1.contains_key(k) {
                let j = choose|j: int| 0 <= j < i && #[trigger] self.trees()[j].0 == k.0;
                assert(0 <= j < i + 1);
            }
        }
        assert(m =~= m1.union_prefer_right(m2));
    }

    /// Visits every trie in turn, as `TrieNode::walk` does each.
    fn walk<V: PathVisitor<A>>(&self, visitor: V, data_only: bool) -> (res: (V, Ghost<Seq<Visit<A>>>))
        requires
            self.wf(),
            visitor.ready(),
        ensures
            res.0.ready(),
            is_walk(self@, res.1@),
            passes_bare(res.1@, data_only),
            res.0.visits() == visitor.visits() + shown(res.1@, data_only),
    {
        let ghost v0 = visitor.visits();
        let mut v = visitor;
        let mut i: usize = 0;
        let ghost mut full: Seq<Visit<A>> = Seq::empty();
        proof {
            assert(self.first_roots(0) =~= Map::<Key, Option<A>>::empty());
            assert(entries_of(full) == full);
            assert(v.visits() =~= v0 + shown(full, data_only));
        }
        while i < self.roots.len()
            invariant
                self.wf(),
                i <= self.trees().len(),
                v.ready(),
                is_walk(self.first_roots(i as int), full),
                passes_bare(full, data_only),
                v.visits() == v0 + shown(full, data_only),
            decreases self.trees().len() - i,
        {
            let mut path = AccessPath::at_root(self.roots[i].0.duplicate());
            let (v1, sub) = self.roots[i].1.walk(&mut path, v, data_only);
            v = v1;
            proof {
                self.lemma_walk_step(i as int, full, sub@);
                lemma_shown_concat(full, sub@, data_only);
                assert(v.visits() =~= v0 + shown(full + sub@, data_only));
                full = full + sub@;
            }
            i += 1;
        }
        proof {
            let n = self.trees().len() as int;
            assert forall|k: Key| #[trigger] self@.contains_key(k) implies exists|j: int|
                0 <= j < n && #[trigger] self.trees()[j].0 == k.0 by {
                assert(self.trees()[self.root_index(k.0)].0 == k.0);
            }
            assert(self.first_roots(n) =~= self@);
        }
        (v, Ghost(full))
    }

    /// Visits every node of every trie, each root's from its root; a stop at
    /// a node leaves out what is below it and nothing else.
    pub fn iter_paths_opt<V: PathVisitor<A>>(&self, visitor: V) -> (r: V)
        requires
            self.wf(),
            visitor.ready(),
        ensures
            r.ready(),
            exists|log: Seq<Visit<A>>|
                is_walk(self@, log) && #[trigger] r.visits() == visitor.visits() + log,
    {
        let (r, full) = self.walk(visitor, false);
        r
    }

    /// Visits the stored paths only: a node without data is passed over as if
    /// the visitor had asked to go on below it.
    pub fn iter_paths<V: PathVisitor<A>>(&self, visitor: V) -> (r: V)
        requires
            self.wf(),
            visitor.ready(),
        ensures
            r.ready(),
            exists|log: Seq<Visit<A>>|
                {
                    &&& is_walk(self@, log)
                    &&& passes_bare(log, true)
                    &&& #[trigger] r.visits() == visitor.visits() + entries_of(log)
                },
    {
        let (r, full) = self.walk(visitor, true);
        r
    }
}

} // verus!
