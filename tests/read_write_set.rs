use move_core_types::account_address::AccountAddress;
use move_core_types::identifier::Identifier;
use move_core_types::language_storage::StructTag;
use read_write_set_types::{
    Access, AccessPath, Offset, PathCollector, PruningCollector, ReadWriteSet, Root, TrieNode,
};

fn addr(s: &str) -> AccountAddress {
    AccountAddress::from_hex_literal(s).unwrap()
}

fn tag(module: &str, name: &str) -> StructTag {
    StructTag {
        address: addr("0x1"),
        module: Identifier::new(module).unwrap(),
        name: Identifier::new(name).unwrap(),
        type_params: vec![],
    }
}

fn path(root: Root, offsets: Vec<Offset>) -> AccessPath {
    AccessPath { root, offsets }
}

fn all_nodes(set: &ReadWriteSet<Access>) -> Vec<(AccessPath, Option<Access>)> {
    set.iter_paths_opt(PathCollector::new()).seen().clone()
}

fn stored(set: &ReadWriteSet<Access>) -> Vec<(AccessPath, Option<Access>)> {
    set.iter_paths(PathCollector::new()).seen().clone()
}

fn find<'a>(
    seen: &'a [(AccessPath, Option<Access>)],
    root: &Root,
    offsets: &[Offset],
) -> Option<&'a Option<Access>> {
    seen.iter()
        .find(|(p, _)| p.root == *root && p.offsets.as_slice() == offsets)
        .map(|(_, d)| d)
}

#[test]
fn concrete_scenario_two_paths() {
    let r = Root::Const(addr("0x1"));
    let mut set = ReadWriteSet::new();
    set.add_access_path(path(r.clone(), vec![Offset::Field(0)]), Access::Write);
    set.add_access_path(
        path(r.clone(), vec![Offset::Field(0), Offset::VectorIndex]),
        Access::Read,
    );
    let seen = stored(&set);
    assert_eq!(seen.len(), 2);
    assert_eq!(find(&seen, &r, &[Offset::Field(0)]), Some(&Some(Access::Write)));
    assert_eq!(
        find(&seen, &r, &[Offset::Field(0), Offset::VectorIndex]),
        Some(&Some(Access::Read))
    );
    let top = set.root_node(&r).unwrap();
    assert_eq!(*top.data(), None);
    let field0 = top.child(&Offset::Field(0)).unwrap();
    assert_eq!(*field0.data(), Some(Access::Write));
    assert_eq!(field0.child_count(), 1);
    let vi = field0.child(&Offset::VectorIndex).unwrap();
    assert_eq!(*vi.data(), Some(Access::Read));
    assert_eq!(vi.child_count(), 0);
}

#[test]
fn storing_twice_keeps_structure_and_last_access() {
    let r = Root::Formal(0);
    let p = vec![Offset::Field(1), Offset::Field(2)];
    let mut set = ReadWriteSet::new();
    set.add_access_path(path(r.clone(), p.clone()), Access::Read);
    let before = all_nodes(&set).len();
    set.add_access_path(path(r.clone(), p.clone()), Access::Write);
    let nodes = all_nodes(&set);
    assert_eq!(nodes.len(), before);
    assert_eq!(nodes.len(), 3);
    assert_eq!(find(&nodes, &r, &p), Some(&Some(Access::Write)));
    assert_eq!(stored(&set).len(), 1);
}

#[test]
fn shared_prefix_is_one_node() {
    let r = Root::Formal(3);
    let mut set = ReadWriteSet::new();
    set.add_access_path(path(r.clone(), vec![Offset::Field(0), Offset::Field(1)]), Access::Read);
    set.add_access_path(path(r.clone(), vec![Offset::Field(0), Offset::Field(2)]), Access::Write);
    let nodes = all_nodes(&set);
    assert_eq!(nodes.len(), 4);
    let top = set.root_node(&r).unwrap();
    assert_eq!(top.child_count(), 1);
    let a = top.child(&Offset::Field(0)).unwrap();
    assert_eq!(a.child_count(), 2);
    assert_eq!(*a.child(&Offset::Field(1)).unwrap().data(), Some(Access::Read));
    assert_eq!(*a.child(&Offset::Field(2)).unwrap().data(), Some(Access::Write));
    assert!(a.child(&Offset::VectorIndex).is_none());
}

#[test]
fn traversal_yields_each_stored_path_once() {
    let r1 = Root::Const(addr("0x1"));
    let r2 = Root::Formal(0);
    let entries = vec![
        (path(r1.clone(), vec![Offset::Field(0)]), Access::Read),
        (path(r1.clone(), vec![Offset::Field(0), Offset::Field(4)]), Access::Write),
        (path(r2.clone(), vec![]), Access::ReadWrite),
        (path(r2.clone(), vec![Offset::VectorIndex, Offset::Global(tag("M", "S"))]), Access::Read),
    ];
    let mut set = ReadWriteSet::new();
    for (p, a) in entries.iter() {
        set.add_access_path(p.clone(), *a);
    }
    let seen = stored(&set);
    assert_eq!(seen.len(), entries.len());
    for (p, a) in entries.iter() {
        let hits: Vec<_> = seen
            .iter()
            .filter(|(q, _)| q.root == p.root && q.offsets == p.offsets)
            .collect();
        assert_eq!(hits.len(), 1);
        assert_eq!(hits[0].1, Some(*a));
    }
    // the bare node under r2 is visited by the full traversal only
    assert_eq!(all_nodes(&set).len(), 6);
}

#[test]
fn stop_prunes_only_that_subtree() {
    let r = Root::Formal(1);
    let mut set = ReadWriteSet::new();
    set.add_access_path(path(r.clone(), vec![Offset::Field(0), Offset::Field(5)]), Access::Read);
    set.add_access_path(
        path(r.clone(), vec![Offset::Field(0), Offset::Field(5), Offset::VectorIndex]),
        Access::Read,
    );
    set.add_access_path(path(r.clone(), vec![Offset::Field(1), Offset::Field(6)]), Access::Write);
    set.add_access_path(path(Root::Formal(2), vec![Offset::Field(0)]), Access::Write);
    let stop = path(r.clone(), vec![Offset::Field(0)]);
    let collector = set.iter_paths_opt(PruningCollector::new(stop));
    let seen = collector.seen();
    // r, r.0, r.1, r.1.6, formal 2 and its field 0
    assert_eq!(seen.len(), 6);
    assert!(find(seen, &r, &[Offset::Field(0)]).is_some());
    assert!(find(seen, &r, &[Offset::Field(0), Offset::Field(5)]).is_none());
    assert!(find(seen, &r, &[Offset::Field(0), Offset::Field(5), Offset::VectorIndex]).is_none());
    assert_eq!(find(seen, &r, &[Offset::Field(1), Offset::Field(6)]), Some(&Some(Access::Write)));
    assert!(find(seen, &Root::Formal(2), &[Offset::Field(0)]).is_some());
}

#[test]
fn stop_at_stored_path_with_entries_only() {
    let r = Root::Formal(1);
    let mut set = ReadWriteSet::new();
    set.add_access_path(path(r.clone(), vec![Offset::Field(0)]), Access::Read);
    set.add_access_path(path(r.clone(), vec![Offset::Field(0), Offset::Field(1)]), Access::Read);
    set.add_access_path(path(r.clone(), vec![Offset::Field(2), Offset::Field(3)]), Access::Write);
    let collector = set.iter_paths(PruningCollector::new(path(r.clone(), vec![Offset::Field(0)])));
    let seen = collector.seen();
    assert_eq!(seen.len(), 2);
    assert!(find(seen, &r, &[Offset::Field(0)]).is_some());
    assert!(find(seen, &r, &[Offset::Field(2), Offset::Field(3)]).is_some());
}

#[test]
fn empty_path_stores_at_root_node() {
    let r = Root::Const(addr("0x2"));
    let mut set = ReadWriteSet::new();
    set.add_access_path(path(r.clone(), vec![]), Access::Write);
    let top = set.root_node(&r).unwrap();
    assert_eq!(*top.data(), Some(Access::Write));
    assert_eq!(top.child_count(), 0);
    let nodes = all_nodes(&set);
    assert_eq!(nodes.len(), 1);
    assert!(nodes[0].0.offsets.is_empty());
}

#[test]
fn distinct_roots_get_distinct_tries() {
    let mut set = ReadWriteSet::new();
    set.add_access_path(path(Root::Const(addr("0x1")), vec![]), Access::Read);
    set.add_access_path(path(Root::Const(addr("0x2")), vec![]), Access::Write);
    set.add_access_path(path(Root::Const(addr("0x1")), vec![]), Access::Write);
    set.add_access_path(path(Root::Formal(1), vec![]), Access::Read);
    assert_eq!(all_nodes(&set).len(), 3);
    assert_eq!(*set.root_node(&Root::Const(addr("0x1"))).unwrap().data(), Some(Access::Write));
    assert_eq!(*set.root_node(&Root::Const(addr("0x2"))).unwrap().data(), Some(Access::Write));
    assert!(set.root_node(&Root::Const(addr("0x3"))).is_none());
    assert!(set.root_node(&Root::Formal(0)).is_none());
}

#[test]
fn global_offsets_are_keyed_by_struct_tag() {
    let r = Root::Formal(0);
    let mut set = ReadWriteSet::new();
    set.add_access_path(path(r.clone(), vec![Offset::Global(tag("M", "S"))]), Access::Read);
    set.add_access_path(path(r.clone(), vec![Offset::Global(tag("M", "T"))]), Access::Write);
    set.add_access_path(path(r.clone(), vec![Offset::Global(tag("M", "S"))]), Access::Write);
    let top = set.root_node(&r).unwrap();
    assert_eq!(top.child_count(), 2);
    assert_eq!(*top.child(&Offset::Global(tag("M", "S"))).unwrap().data(), Some(Access::Write));
    assert_eq!(*top.child(&Offset::Global(tag("M", "T"))).unwrap().data(), Some(Access::Write));
    assert!(top.child(&Offset::Global(tag("N", "S"))).is_none());
}

#[test]
fn empty_set_visits_nothing() {
    let set: ReadWriteSet<Access> = ReadWriteSet::new();
    assert!(all_nodes(&set).is_empty());
    assert!(stored(&set).is_empty());
}

#[test]
fn trie_node_entry_inserts_or_gets() {
    let mut node: TrieNode<Access> = TrieNode::new();
    assert_eq!(*node.data(), None);
    assert_eq!(node.child_count(), 0);
    node.entry(Offset::Field(0));
    node.entry(Offset::VectorIndex);
    node.entry(Offset::Field(0));
    assert_eq!(node.child_count(), 2);
    let child = node.entry(Offset::Field(7));
    assert_eq!(child.child_count(), 0);
    assert_eq!(node.child_count(), 3);
    assert!(node.child(&Offset::Field(7)).is_some());
}

#[test]
fn offsets_roots_and_paths_compare_by_value() {
    assert!(Offset::Field(3).same_as(&Offset::Field(3)));
    assert!(!Offset::Field(3).same_as(&Offset::Field(4)));
    assert!(!Offset::Field(0).same_as(&Offset::VectorIndex));
    assert!(Offset::Global(tag("M", "S")).same_as(&Offset::Global(tag("M", "S"))));
    assert!(!Offset::Global(tag("M", "S")).same_as(&Offset::Global(tag("M", "T"))));
    assert!(Root::Const(addr("0x5")).same_as(&Root::Const(addr("0x5"))));
    assert!(!Root::Const(addr("0x5")).same_as(&Root::Const(addr("0x6"))));
    assert!(!Root::Const(addr("0x0")).same_as(&Root::Formal(0)));
    let p = path(Root::Formal(2), vec![Offset::Field(1), Offset::Global(tag("M", "S"))]);
    let q = p.duplicate();
    assert!(p.same_as(&q));
    assert_eq!(q.offsets, p.offsets);
    assert!(!p.same_as(&path(Root::Formal(2), vec![Offset::Field(1)])));
    assert_eq!(Offset::Global(tag("M", "S")).duplicate(), Offset::Global(tag("M", "S")));
    assert_eq!(Root::Const(addr("0x9")).duplicate(), Root::Const(addr("0x9")));
    let at = AccessPath::at_root(Root::Formal(4));
    assert_eq!(at.root, Root::Formal(4));
    assert!(at.offsets.is_empty());
}
