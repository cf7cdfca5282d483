//! One node of the trie: optional data and children labelled by offsets.
use crate::path::{AccessPath, Offset};
use crate::set::Key;
use crate::visit::{
    continued, is_top, is_walk, lemma_shown_concat, lemma_walk_union, parent, passes_bare, shown, visited,
    PathVisitor, Visit, entries_of,
};
use vstd::prelude::*;

verus! {

/// Whether `q` is a prefix of `p` (possibly all of it).
pub open spec fn leads(q: Seq<Offset>, p: Seq<Offset>) -> bool {
    q.len() <= p.len() && forall|k: int| 0 <= k < q.len() ==> q[k] == p[k]
}

/// The node contents `m` after storing `a` at the relative path `p`: every
/// prefix of `p` becomes a node, `p` carries `a`, all else is kept.
pub open spec fn with_path<A>(m: Map<Seq<Offset>, Option<A>>, p: Seq<Offset>, a: A) -> Map<
    Seq<Offset>,
    Option<A>,
> {
    Map::new(
        |q: Seq<Offset>| m.contains_key(q) || leads(q, p),
        |q: Seq<Offset>|
            if q == p {
                Some(a)
            } else if m.contains_key(q) {
                m[q]
            } else {
                None
            },
    )
}

/// The contents `m` of a node, placed at the location `base`.
pub open spec fn placed<A>(m: Map<Seq<Offset>, Option<A>>, base: Key) -> Map<Key, Option<A>> {
    Map::new(
        |k: Key|
            k.0 == base.0 && leads(base.1, k.1) && m.contains_key(k.1.skip(base.1.len() as int)),
        |k: Key| m[k.1.skip(base.1.len() as int)],
    )
}

/// The contents `m` of a node seen from its child labelled `o`.
pub open spec fn below<A>(m: Map<Seq<Offset>, Option<A>>, o: Offset) -> Map<Seq<Offset>, Option<A>> {
    Map::new(|p: Seq<Offset>| m.contains_key(seq![o] + p), |p: Seq<Offset>| m[seq![o] + p])
}

/// The contents of a node with no data and no children.
pub open spec fn empty_node<A>() -> Map<Seq<Offset>, Option<A>> {
    map![Seq::<Offset>::empty() => None]
}

/// Whether no two entries of `kids` share a label.
pub open spec fn keys_unique<A>(kids: Seq<(Offset, TrieNode<A>)>) -> bool {
    forall|i: int, j: int|
        0 <= i < kids.len() && 0 <= j < kids.len() && #[trigger] kids[i].0 == #[trigger] kids[j].0
            ==> i == j
}

/// Whether some entry of `kids` has label `o`.
pub open spec fn has_key<A>(kids: Seq<(Offset, TrieNode<A>)>, o: Offset) -> bool {
    exists|i: int| 0 <= i < kids.len() && #[trigger] kids[i].0 == o
}

/// A node of the trie; it owns its children.
#[derive(Debug)]
pub struct TrieNode<A> {
    /// Data stored at exactly this node's path
    pub(crate) data: Option<A>,
    /// Child nodes labelled by offsets, labels unique
    pub(crate) children: Vec<(Offset, TrieNode<A>)>,
}

impl<A> TrieNode<A> {
    /// The data stored at this node.
    pub open(crate) spec fn stored(&self) -> Option<A> {
        self.data
    }

    /// The children with their labels.
    pub open(crate) spec fn kids(&self) -> Seq<(Offset, TrieNode<A>)> {
        self.children@
    }

    /// The position of the child labelled `o`.
    pub open spec fn child_index(&self, o: Offset) -> int {
        choose|i: int| 0 <= i < self.kids().len() && #[trigger] self.kids()[i].0 == o
    }

    /// The node reached from this one along the relative path `p`.
    pub open spec fn node_at(&self, p: Seq<Offset>) -> Option<TrieNode<A>>
        decreases p.len(),
    {
        if p.len() == 0 {
            Some(*self)
        } else if has_key(self.kids(), p[0]) {
            self.kids()[self.child_index(p[0])].1.node_at(p.drop_first())
        } else {
            None
        }
    }

    /// The relative paths of the nodes of this subtree, each with its data.
    pub open spec fn view(&self) -> Map<Seq<Offset>, Option<A>> {
        Map::new(
            |p: Seq<Offset>| self.node_at(p) is Some,
            |p: Seq<Offset>| self.node_at(p).unwrap().stored(),
        )
    }

    /// Labels are unique among the children of every node of the subtree.
    pub open spec fn wf(&self) -> bool {
        forall|p: Seq<Offset>| #[trigger]
            self.node_at(p) is Some ==> keys_unique(self.node_at(p).unwrap().kids())
    }

    /// An empty node: no data, no children.
    pub fn new() -> (r: TrieNode<A>)
        ensures
            r.wf(),
            r.stored() is None,
            r.kids().len() == 0,
            r@ == empty_node::<A>(),
    {
        let r = TrieNode { data: None, children: Vec::new() };
        assert(r@ =~= empty_node::<A>()) by {
            assert(r.node_at(Seq::<Offset>::empty()) == Some(r));
            assert forall|p: Seq<Offset>| #[trigger] r@.contains_key(p) <==> p =~= Seq::<Offset>::empty() by {
                if p.len() > 0 {
                    assert(!has_key(r.kids(), p[0]));
                }
            }
        }
        r
    }

    /// A well-formed node has unique labels and well-formed children.
    pub proof fn lemma_wf_down(&self, i: int)
        requires
            self.wf(),
            0 <= i < self.kids().len(),
        ensures
            keys_unique(self.kids()),
            self.kids()[i].1.wf(),
            self.child_index(self.kids()[i].0) == i,
    {
        assert(self.node_at(Seq::<Offset>::empty()) == Some(*self));
        self.lemma_index(i);
        let o = self.kids()[i].0;
        let c = self.kids()[i].1;
        assert forall|p: Seq<Offset>| #[trigger] c.node_at(p) is Some implies keys_unique(
            c.node_at(p).unwrap().kids(),
        ) by {
            let q = seq![o] + p;
            assert(q.drop_first() =~= p);
            assert(self.node_at(q) == c.node_at(p));
        }
    }

    /// Unique labels and well-formed children make a well-formed node.
    pub proof fn lemma_wf_up(&self)
        requires
            keys_unique(self.kids()),
            forall|i: int| 0 <= i < self.kids().len() ==> #[trigger] self.kids()[i].1.wf(),
        ensures
            self.wf(),
    {
        assert forall|p: Seq<Offset>| #[trigger] self.node_at(p) is Some implies keys_unique(
            self.node_at(p).unwrap().kids(),
        ) by {
            if p.len() > 0 {
                let j = self.child_index(p[0]);
                let c = self.kids()[j].1;
                assert(c.wf());
                assert(c.node_at(p.drop_first()) is Some);
            }
        }
    }

    /// Below a child, the subtree is that child's.
    pub proof fn lemma_step(&self, p: Seq<Offset>)
        requires
            p.len() > 0,
        ensures
            self@.contains_key(p) == (has_key(self.kids(), p[0]) && self.kids()[self.child_index(
                p[0],
            )].1@.contains_key(p.drop_first())),
            self@.contains_key(p) ==> self@[p] == self.kids()[self.child_index(p[0])].1@[p.drop_first()],
    {
    }

    /// The child labelled `o`, where there is one, holds what lies below `o`.
    pub proof fn lemma_below(&self, o: Offset)
        ensures
            has_key(self.kids(), o) == self@.contains_key(seq![o]),
            has_key(self.kids(), o) ==> self.kids()[self.child_index(o)].1@ == below(self@, o),
    {
        self.lemma_step(seq![o]);
        assert(seq![o].drop_first() =~= Seq::<Offset>::empty());
        if has_key(self.kids(), o) {
            let c = self.kids()[self.child_index(o)].1;
            c.lemma_top();
            assert forall|p: Seq<Offset>| #[trigger] c@.contains_key(p) == below(self@, o).contains_key(p)
                && (c@.contains_key(p) ==> c@[p] == below(self@, o)[p]) by {
                self.lemma_step(seq![o] + p);
                assert((seq![o] + p).drop_first() =~= p);
                assert((seq![o] + p)[0] == o);
            }
            assert(c@ =~= below(self@, o));
        }
    }

    /// The node itself is in its subtree, with its own data.
    pub proof fn lemma_top(&self)
        ensures
            self@.contains_key(Seq::<Offset>::empty()),
            self@[Seq::<Offset>::empty()] == self.stored(),
    {
        assert(self.node_at(Seq::<Offset>::empty()) == Some(*self));
    }

    /// With unique labels, `i` is where the child labelled `kids[i].0` stands.
    pub proof fn lemma_index(&self, i: int)
        requires
            keys_unique(self.kids()),
            0 <= i < self.kids().len(),
        ensures
            has_key(self.kids(), self.kids()[i].0),
            self.child_index(self.kids()[i].0) == i,
    {
        assert(has_key(self.kids(), self.kids()[i].0));
        let j = self.child_index(self.kids()[i].0);
        assert(self.kids()[j].0 == self.kids()[i].0);
    }

    /// The position of the child labelled `o`, if there is one.
    fn find(&self, o: &Offset) -> (r: Option<usize>)
        ensures
            r is None <==> !has_key(self.kids(), *o),
            r matches Some(i) ==> i < self.kids().len() && self.kids()[i as int].0 == *o,
    {
        let mut i: usize = 0;
        while i < self.children.len()
            invariant
                i <= self.kids().len(),
                forall|j: int| 0 <= j < i ==> self.kids()[j].0 != *o,
            decreases self.kids().len() - i,
        {
            if self.children[i].0.same_as(o) {
                return Some(i);
            }
            i += 1;
        }
        None
    }

    /// The child labelled `o`, made empty first if there was none.
    pub fn entry(&mut self, o: Offset) -> (r: &mut TrieNode<A>)
        requires
            old(self).wf(),
        ensures
            r.wf(),
            r@ == (if old(self)@.contains_key(seq![o]) {
                below(old(self)@, o)
            } else {
                empty_node::<A>()
            }),
            final(self).stored() == old(self).stored(),
            has_key(old(self).kids(), o) ==> *r == old(self).kids()[old(self).child_index(o)].1
                && final(self).kids() == old(self).kids().update(
                old(self).child_index(o),
                (o, *final(r)),
            ),
            !has_key(old(self).kids(), o) ==> r@ == empty_node::<A>() && final(self).kids()
                == old(self).kids().push((o, *final(r))),
    {
        proof {
            self.lemma_below(o);
        }
        let i: usize = match self.find(&o) {
            Some(i) => {
                proof {
                    self.lemma_index(i as int);
                    self.lemma_wf_down(i as int);
                }
                i
            },
            None => {
                self.children.push((o, TrieNode::new()));
                self.children.len() - 1
            },
        };
        let ghost mid = *self;
        proof {
            if has_key(old(self).kids(), o) {
                old(self).lemma_wf_down(i as int);
            } else {
                assert(old(self).node_at(Seq::<Offset>::empty()) == Some(*old(self)));
                assert(keys_unique(mid.kids()));
            }
            mid.lemma_index(i as int);
        }
        let r = &mut self.children[i].1;
        r
    }

    /// Stores `a` at the relative path `offsets[i..]`, creating the nodes on
    /// the way.
    pub(crate) fn insert(&mut self, offsets: &Vec<Offset>, i: usize, a: A)
        requires
            old(self).wf(),
            i <= offsets.len(),
        ensures
            final(self).wf(),
            final(self)@ == with_path(old(self)@, offsets@.skip(i as int), a),
        decreases offsets.len() - i,
    {
        let ghost rest = offsets@.skip(i as int);
        let ghost before = *self;
        if i == offsets.len() {
            self.data = Some(a);
            proof {
                assert(rest.len() == 0);
                assert forall|p: Seq<Offset>| p.len() > 0 implies #[trigger] self.node_at(p)
                    == before.node_at(p) by {
                    assert(self.kids() == before.kids());
                }
                assert(self.node_at(Seq::<Offset>::empty()) == Some(*self));
                assert(before.node_at(Seq::<Offset>::empty()) == Some(before));
                assert forall|p: Seq<Offset>| #[trigger]
                    self.node_at(p) is Some implies keys_unique(self.node_at(p).unwrap().kids()) by {
                    if p.len() == 0 {
                        assert(keys_unique(before.node_at(p).unwrap().kids()));
                    }
                }
                let goal = with_path(before@, rest, a);
                assert forall|p: Seq<Offset>| #[trigger] self@.contains_key(p) == goal.contains_key(p) by {
                    if p.len() == 0 {
                        assert(leads(p, rest));
                    }
                }
                assert forall|p: Seq<Offset>| #[trigger] self@.contains_key(p) implies self@[p] == goal[p] by {
                    if p.len() == 0 {
                        assert(p =~= rest);
                    }
                }
                assert(self@ =~= goal);
            }
        } else {
            let o = offsets[i].duplicate();
            let ghost had = has_key(before.kids(), o);
            let ghost idx = if had {
                before.child_index(o)
            } else {
                before.kids().len() as int
            };
            let child = self.entry(o);
            let ghost c0 = *child;
            child.insert(offsets, i + 1, a);
            proof {
                let c1 = self.kids()[idx].1;
                assert(c1@ == with_path(c0@, offsets@.skip(i + 1), a));
                assert(self.kids().len() == (if had {
                    before.kids().len()
                } else {
                    before.kids().len() + 1
                }));
                assert forall|j: int| 0 <= j < self.kids().len() && j != idx implies #[trigger] self.kids()[j]
                    == before.kids()[j] by {}
                assert(self.kids()[idx].0 == o);
                assert(keys_unique(self.kids())) by {
                    if had {
                        before.lemma_wf_down(idx);
                    } else {
                        assert(before.node_at(Seq::<Offset>::empty()) == Some(before));
                    }
                    assert forall|j: int, k: int|
                        0 <= j < self.kids().len() && 0 <= k < self.kids().len()
                            && #[trigger] self.kids()[j].0 == #[trigger] self.kids()[k].0 implies j == k by {
                        if j != idx && k != idx {
                            assert(before.kids()[j].0 == before.kids()[k].0);
                        } else if had {
                            assert(before.kids()[j].0 == before.kids()[k].0);
                        } else if j != idx {
                            assert(has_key(before.kids(), o));
                        } else if k != idx {
                            assert(before.kids()[k].0 == o);
                            assert(has_key(before.kids(), o));
                        }
                    }
                }
                assert forall|j: int| 0 <= j < self.kids().len() implies #[trigger] self.kids()[j].1.wf() by {
                    if j != idx {
                        before.lemma_wf_down(j);
                    }
                }
                self.lemma_wf_up();
                // how each relative path fares
                self.lemma_top();
                before.lemma_top();
                let after = *self;
                let goal = with_path(before@, rest, a);
                assert(rest.len() > 0 && rest[0] == o);
                assert(rest.drop_first() =~= offsets@.skip(i + 1));
                assert forall|p: Seq<Offset>| p.len() > 0 implies (#[trigger] after@.contains_key(p)
                    == goal.contains_key(p) && (after@.contains_key(p) ==> after@[p] == goal[p])) by {
                    after.lemma_step(p);
                    before.lemma_step(p);
                    let tail = p.drop_first();
                    assert(leads(p, rest) == (p[0] == o && leads(tail, rest.drop_first()))) by {
                        if p[0] == o && leads(tail, rest.drop_first()) {
                            assert forall|k: int| 0 <= k < p.len() implies p[k] == rest[k] by {
                                if k > 0 {
                                    assert(tail[k - 1] == rest.drop_first()[k - 1]);
                                }
                            }
                        }
                        if leads(p, rest) {
                            assert(p[0] == rest[0]);
                            assert forall|k: int| 0 <= k < tail.len() implies tail[k] == rest.drop_first()[k] by {
                                assert(p[k + 1] == rest[k + 1]);
                            }
                        }
                    }
                    assert((p == rest) == (p[0] == o && tail == rest.drop_first())) by {
                        if p[0] == o && tail == rest.drop_first() {
                            assert(p =~= seq![o] + tail);
                            assert(rest =~= seq![o] + rest.drop_first());
                        }
                    }
                    if p[0] == o {
                        after.lemma_index(idx);
                        if had {
                            before.lemma_wf_down(idx);
                        } else {
                            assert(c0@ == empty_node::<A>());
                        }
                    } else {
                        if has_key(after.kids(), p[0]) {
                            let j = after.child_index(p[0]);
                            assert(j != idx);
                            assert(before.kids()[j].0 == p[0]);
                            before.lemma_index(j);
                            after.lemma_index(j);
                        }
                        if has_key(before.kids(), p[0]) {
                            let j = before.child_index(p[0]);
                            assert(after.kids()[j].0 == p[0]);
                            after.lemma_index(j);
                            before.lemma_wf_down(j);
                        }
                        assert(!leads(p, rest));
                    }
                }
                assert(after@ =~= goal) by {
                    assert forall|p: Seq<Offset>| #[trigger] after@.contains_key(p) == goal.contains_key(p) by {
                        if p.len() == 0 {
                            assert(leads(p, rest));
                        }
                    }
                    assert forall|p: Seq<Offset>| #[trigger] after@.contains_key(p) implies after@[p] == goal[p] by {
                        if p.len() == 0 {
                            assert(p != rest);
                        }
                    }
                }
            }
        }
    }

    /// The part of this node placed at `base` that is the node itself and
    /// the subtrees of its first `i` children.
    pub open spec fn first_kids(&self, base: Key, i: int) -> Map<Key, Option<A>> {
        Map::new(
            |k: Key|
                placed(self@, base).contains_key(k) && (k.1.len() == base.1.len() || exists|j: int|
                    0 <= j < i && #[trigger] self.kids()[j].0 == k.1[base.1.len() as int]),
            |k: Key| placed(self@, base)[k],
        )
    }

    /// Every node of the subtree hangs below another of it, up to the top.
    pub proof fn lemma_prefix_closed(&self, p: Seq<Offset>)
        requires
            self@.contains_key(p),
            p.len() > 0,
        ensures
            self@.contains_key(p.drop_last()),
        decreases p.len(),
    {
        self.lemma_step(p);
        if p.len() == 1 {
            self.lemma_top();
            assert(p.drop_last() =~= Seq::<Offset>::empty());
        } else {
            let c = self.kids()[self.child_index(p[0])].1;
            c.lemma_prefix_closed(p.drop_first());
            assert(p.drop_last().drop_first() =~= p.drop_first().drop_last());
            self.lemma_step(p.drop_last());
        }
    }

    proof fn lemma_base_only(&self, base: Key, k: Key)
        requires
            placed(self@, base).contains_key(k),
            k.1.len() == base.1.len(),
        ensures
            k == base,
    {
        assert(k.1 =~= base.1);
    }

    /// A visit of the node alone, with a stop, is a traversal of its subtree.
    pub proof fn lemma_walk_stop(&self, base: Key)
        ensures
            is_walk(placed(self@, base), seq![(base, self.stored(), false)]),
    {
        let m = placed(self@, base);
        let l: Seq<Visit<A>> = seq![(base, self.stored(), false)];
        self.lemma_top();
        assert(base.1.skip(base.1.len() as int) =~= Seq::<Offset>::empty());
        assert(m.contains_key(base));
        assert forall|k: Key| #[trigger] m.contains_key(k) implies (visited(l, k) <==> (is_top(m, k)
            || continued(l, parent(k)))) by {
            if k == base {
                assert(l[0].0 == k);
                if k.1.len() > 0 {
                    assert(!m.contains_key(parent(k)));
                }
            } else {
                let bl = base.1.len() as int;
                if k.1.len() == bl {
                    self.lemma_base_only(base, k);
                }
                assert(k.1.len() > bl);
                let p = k.1.skip(bl);
                self.lemma_prefix_closed(p);
                assert(p.drop_last() =~= k.1.drop_last().skip(bl));
                assert(m.contains_key(parent(k)));
                assert(!visited(l, k));
                assert(!continued(l, parent(k)));
            }
        }
    }

    proof fn lemma_walk_start(&self, base: Key)
        ensures
            is_walk(self.first_kids(base, 0), seq![(base, self.stored(), true)]),
    {
        let m = self.first_kids(base, 0);
        let l: Seq<Visit<A>> = seq![(base, self.stored(), true)];
        self.lemma_top();
        assert(base.1.skip(base.1.len() as int) =~= Seq::<Offset>::empty());
        assert(m.contains_key(base));
        assert forall|k: Key| #[trigger] m.contains_key(k) implies k == base by {
            self.lemma_base_only(base, k);
        }
        assert(l[0].0 == base);
        if base.1.len() > 0 {
            assert(!m.contains_key(parent(base)));
        }
    }

    proof fn lemma_walk_step(&self, base: Key, i: int, l1: Seq<Visit<A>>, l2: Seq<Visit<A>>)
        requires
            self.wf(),
            0 <= i < self.kids().len(),
            is_walk(self.first_kids(base, i), l1),
            l1.len() > 0,
            l1[0] == (base, self.stored(), true),
            is_walk(placed(self.kids()[i].1@, (base.0, base.1.push(self.kids()[i].0))), l2),
        ensures
            is_walk(self.first_kids(base, i + 1), l1 + l2),
    {
        let bl = base.1.len() as int;
        let o = self.kids()[i].0;
        let c = self.kids()[i].1;
        let b2 = (base.0, base.1.push(o));
        let m1 = self.first_kids(base, i);
        let m2 = placed(c@, b2);
        let big = placed(self@, base);
        self.lemma_wf_down(i);
        // a location below `o` is in this subtree exactly when it is in the child's
        assert forall|k: Key| #[trigger] m2.contains_key(k) <==> (big.contains_key(k) && k.1.len()
            > bl && k.1[bl] == o) by {
            if k.1.len() > bl && leads(base.1, k.1) {
                let p = k.1.skip(bl);
                self.lemma_step(p);
                assert(p.drop_first() =~= k.1.skip(bl + 1));
                assert(leads(b2.1, k.1) == (k.1[bl] == o)) by {
                    if k.1[bl] == o {
                        assert forall|x: int| 0 <= x < b2.1.len() implies b2.1[x] == k.1[x] by {
                            if x < bl {
                                assert(base.1[x] == k.1[x]);
                            }
                        }
                    }
                }
            }
            if m2.contains_key(k) {
                assert(leads(base.1, k.1)) by {
                    assert forall|x: int| 0 <= x < base.1.len() implies base.1[x] == k.1[x] by {
                        assert(b2.1[x] == k.1[x]);
                    }
                }
                assert(k.1[bl] == b2.1[bl]);
            }
        }
        assert forall|k: Key| #[trigger] m2.contains_key(k) implies m2[k] == big[k] by {
            let p = k.1.skip(bl);
            self.lemma_step(p);
            assert(p.drop_first() =~= k.1.skip(bl + 1));
        }
        assert(m1.dom().disjoint(m2.dom())) by {
            assert forall|k: Key| m1.contains_key(k) && m2.contains_key(k) implies false by {
                let j = choose|j: int| 0 <= j < i && #[trigger] self.kids()[j].0 == k.1[bl];
            }
        }
        assert forall|k: Key| #[trigger] m1.contains_key(k) && k.1.len() > 0 implies !m2.contains_key(
            parent(k),
        ) by {
            if m2.contains_key(parent(k)) {
                assert(k.1.len() > bl + 1);
                let j = choose|j: int| 0 <= j < i && #[trigger] self.kids()[j].0 == k.1[bl];
                assert(parent(k).1[bl] == k.1[bl]);
            }
        }
        assert forall|k: Key| #[trigger]
            m2.contains_key(k) && k.1.len() > 0 && m1.contains_key(parent(k)) implies continued(
            l1,
            parent(k),
        ) by {
            if k.1.len() > bl + 1 {
                let j = choose|j: int| 0 <= j < i && #[trigger] self.kids()[j].0 == parent(k).1[bl];
                assert(parent(k).1[bl] == k.1[bl]);
            } else {
                self.lemma_base_only(base, parent(k));
                assert(l1[0].0 == parent(k));
            }
        }
        lemma_walk_union(m1, l1, m2, l2);
        let m = self.first_kids(base, i + 1);
        assert forall|k: Key| #[trigger] m.contains_key(k) == m1.union_prefer_right(m2).contains_key(k) by {
            if m.contains_key(k) && k.1.len() > bl && !m2.contains_key(k) {
                let j = choose|j: int| 0 <= j < i + 1 && #[trigger] self.kids()[j].0 == k.1[bl];
                assert(j != i);
            }
            if m2.contains_key(k) {
                assert(self.kids()[i].0 == k.1[bl]);
            }
            if m1.contains_key(k) && k.1.len() > bl {
                let j = choose|j: int| 0 <= j < i && #[trigger] self.kids()[j].0 == k.1[bl];
                assert(0 <= j < i + 1);
            }
        }
        assert(m =~= m1.union_prefer_right(m2));
    }

    proof fn lemma_walk_end(&self, base: Key)
        ensures
            self.first_kids(base, self.kids().len() as int) == placed(self@, base),
    {
        let bl = base.1.len() as int;
        let n = self.kids().len() as int;
        assert forall|k: Key| #[trigger] placed(self@, base).contains_key(k) && k.1.len() != bl implies exists|j: int|
            0 <= j < n && #[trigger] self.kids()[j].0 == k.1[bl] by {
            let p = k.1.skip(bl);
            self.lemma_step(p);
            let j = self.child_index(p[0]);
            assert(self.kids()[j].0 == k.1[bl]);
        }
        assert(self.first_kids(base, n) =~= placed(self@, base));
    }

    /// Visits this node, placed at `path`, and then, unless the visitor asks
    /// to stop there, each child's subtree in turn. With `data_only` the
    /// visitor is not shown nodes without data, and the walk goes on below
    /// them. Also gives the traversal made, nodes without data included.
    pub(crate) fn walk<V: PathVisitor<A>>(
        &self,
        path: &mut AccessPath,
        visitor: V,
        data_only: bool,
    ) -> (res: (V, Ghost<Seq<Visit<A>>>))
        requires
            self.wf(),
            visitor.ready(),
        ensures
            final(path)@ == old(path)@,
            res.0.ready(),
            is_walk(placed(self@, old(path)@), res.1@),
            passes_bare(res.1@, data_only),
            res.0.visits() == visitor.visits() + shown(res.1@, data_only),
        decreases self,
    {
        let ghost base = path@;
        let ghost v0 = visitor.visits();
        let mut v = visitor;
        let go_on = if data_only && self.data.is_none() {
            true
        } else {
            v.visit(path, &self.data)
        };
        let ghost first: Seq<Visit<A>> = seq![(base, self.stored(), go_on)];
        proof {
            if data_only {
                assert(first.drop_last() =~= Seq::<Visit<A>>::empty());
                assert(entries_of(Seq::<Visit<A>>::empty()) == Seq::<Visit<A>>::empty());
            }
            if data_only && self.stored() is None {
                assert(v.visits() =~= v0 + shown(first, data_only));
            } else {
                assert(v.visits() =~= v0 + shown(first, data_only));
            }
        }
        if !go_on {
            proof {
                self.lemma_walk_stop(base);
            }
            return (v, Ghost(first));
        }
        proof {
            self.lemma_walk_start(base);
        }
        let ghost mut full: Seq<Visit<A>> = first;
        let mut i: usize = 0;
        while i < self.children.len()
            invariant
                self.wf(),
                i <= self.kids().len(),
                path@ == base,
                v.ready(),
                full.len() > 0,
                full[0] == (base, self.stored(), true),
                is_walk(self.first_kids(base, i as int), full),
                passes_bare(full, data_only),
                v.visits() == v0 + shown(full, data_only),
            decreases self.kids().len() - i,
        {
            path.offsets.push(self.children[i].0.duplicate());
            proof {
                assert(decreases_to!(self.children => self.children@));
                assert(decreases_to!(self.children@ => self.children@[i as int]));
                assert(decreases_to!(*self => self.children@[i as int].1));
                self.lemma_wf_down(i as int);
            }
            let (v1, sub) = self.children[i].1.walk(path, v, data_only);
            v = v1;
            path.offsets.pop();
            proof {
                assert(path.offsets@ =~= base.1);
                self.lemma_walk_step(base, i as int, full, sub@);
                lemma_shown_concat(full, sub@, data_only);
                assert(v.visits() =~= v0 + shown(full + sub@, data_only));
                full = full + sub@;
            }
            i += 1;
        }
        proof {
            self.lemma_walk_end(base);
        }
        (v, Ghost(full))
    }

    /// The data stored at this node.
    pub fn data(&self) -> (r: &Option<A>)
        ensures
            *r == self.stored(),
            *r == self@[Seq::<Offset>::empty()],
    {
        proof {
            self.lemma_top();
        }
        &self.data
    }

    /// The number of children.
    pub fn child_count(&self) -> (r: usize)
        ensures
            r == self.kids().len(),
    {
        self.children.len()
    }

    /// The child labelled `o`, if there is one.
    pub fn child(&self, o: &Offset) -> (r: Option<&TrieNode<A>>)
        requires
            self.wf(),
        ensures
            r is None <==> !self@.contains_key(seq![*o]),
            r matches Some(c) ==> *c == self.kids()[self.child_index(*o)].1 && c.wf(),
    {
        proof {
            self.lemma_step(seq![*o]);
            assert(seq![*o].drop_first() =~= Seq::<Offset>::empty());
        }
        match self.find(o) {
            Some(i) => {
                proof {
                    self.lemma_wf_down(i as int);
                    self.kids()[i as int].1.lemma_top();
                }
                Some(&self.children[i].1)
            },
            None => None,
        }
    }
}

} // verus!
