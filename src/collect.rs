//! Visitors that record what they are shown.
use crate::path::AccessPath;
use crate::set::Key;
use crate::visit::{PathVisitor, Visit};
use vstd::prelude::*;

verus! {

/// Records every visit and goes on everywhere.
pub struct PathCollector<A> {
    seen: Vec<(AccessPath, Option<A>)>,
    log: Ghost<Seq<Visit<A>>>,
}

impl<A: Copy> PathCollector<A> {
    /// A collector with nothing recorded.
    pub fn new() -> (r: PathCollector<A>)
        ensures
            r.ready(),
            r.visits() == Seq::<Visit<A>>::empty(),
    {
        PathCollector { seen: Vec::new(), log: Ghost(Seq::empty()) }
    }

    /// The visits made so far, as path and data, in order; each went on.
    pub fn seen(&self) -> (r: &Vec<(AccessPath, Option<A>)>)
        requires
            self.ready(),
        ensures
            r@.len() == self.visits().len(),
            forall|i: int|
                0 <= i < r@.len() ==> (#[trigger] r@[i]).0@ == self.visits()[i].0 && r@[i].1
                    == self.visits()[i].1 && self.visits()[i].2,
    {
        &self.seen
    }
}

impl<A: Copy> PathVisitor<A> for PathCollector<A> {
    closed spec fn visits(&self) -> Seq<Visit<A>> {
        self.log@
    }

    closed spec fn ready(&self) -> bool {
        &&& self.seen@.len() == self.log@.len()
        &&& forall|i: int|
            0 <= i < self.log@.len() ==> (#[trigger] self.log@[i]).0 == self.seen@[i].0@
                && self.log@[i].1 == self.seen@[i].1 && self.log@[i].2
    }

    fn visit(&mut self, path: &AccessPath, data: &Option<A>) -> (go_on: bool) {
        self.seen.push((path.duplicate(), *data));
        self.log = Ghost(self.log@.push((path@, *data, true)));
        true
    }
}

/// Records every visit, and goes on everywhere but at one chosen path.
pub struct PruningCollector<A> {
    seen: Vec<(AccessPath, Option<A>)>,
    stop_at: AccessPath,
    log: Ghost<Seq<Visit<A>>>,
}

impl<A: Copy> PruningCollector<A> {
    /// The path at which the collector asks to stop.
    pub closed spec fn stop(&self) -> Key {
        self.stop_at@
    }

    /// A collector with nothing recorded that asks to stop at `path`.
    pub fn new(path: AccessPath) -> (r: PruningCollector<A>)
        ensures
            r.ready(),
            r.visits() == Seq::<Visit<A>>::empty(),
            r.stop() == path@,
    {
        PruningCollector { seen: Vec::new(), stop_at: path, log: Ghost(Seq::empty()) }
    }

    /// The visits made so far, as path and data, in order; each went on
    /// exactly when it was not at the stop path.
    pub fn seen(&self) -> (r: &Vec<(AccessPath, Option<A>)>)
        requires
            self.ready(),
        ensures
            r@.len() == self.visits().len(),
            forall|i: int|
                0 <= i < r@.len() ==> (#[trigger] r@[i]).0@ == self.visits()[i].0 && r@[i].1
                    == self.visits()[i].1 && self.visits()[i].2 == (self.visits()[i].0
                    != self.stop()),
    {
        &self.seen
    }
}

impl<A: Copy> PathVisitor<A> for PruningCollector<A> {
    closed spec fn visits(&self) -> Seq<Visit<A>> {
        self.log@
    }

    closed spec fn ready(&self) -> bool {
        &&& self.seen@.len() == self.log@.len()
        &&& forall|i: int|
            0 <= i < self.log@.len() ==> (#[trigger] self.log@[i]).0 == self.seen@[i].0@
                && self.log@[i].1 == self.seen@[i].1 && self.log@[i].2 == (self.log@[i].0
                != self.stop_at@)
    }

    fn visit(&mut self, path: &AccessPath, data: &Option<A>) -> (go_on: bool) {
        let go_on = !self.stop_at.same_as(path);
        self.seen.push((path.duplicate(), *data));
        self.log = Ghost(self.log@.push((path@, *data, go_on)));
        go_on
    }
}

} // verus!
