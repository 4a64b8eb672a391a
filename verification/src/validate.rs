//! The dependency validator: flattens a structured graph into a
//! name-to-dependencies map, reports missing dependencies, and finds
//! dependency cycles by depth-first search.  All findings are collected;
//! nothing stops at the first error.

use vstd::prelude::*;

verus! {

use vstd::string::*;

use crate::error::{
    ValidationError,
    ValidationErrorKind,
    ValidationErrorV,
    errors_view,
    group_errors_view,
};
use crate::ir;
use crate::ir::NodeV;

/// The view of one flattened entry: a task name, its dependency names in
/// order, and its terminal flag.
pub type EntryV = (Seq<char>, (Seq<Seq<char>>, bool));

/// Looks a key up in an entry list; the first occurrence wins.
pub open spec fn assoc_get(s: Seq<EntryV>, key: Seq<char>) -> Option<(Seq<Seq<char>>, bool)>
    decreases s,
{
    if s.len() == 0 {
        None
    } else if s[0].0 == key {
        Some(s[0].1)
    } else {
        assoc_get(s.drop_first(), key)
    }
}

pub open spec fn assoc_contains(s: Seq<EntryV>, key: Seq<char>) -> bool {
    assoc_get(s, key) is Some
}

/// Replaces the first entry with this key, or appends a new one.
pub open spec fn assoc_insert(s: Seq<EntryV>, key: Seq<char>, value: (Seq<Seq<char>>, bool)) -> Seq<
    EntryV,
>
    decreases s,
{
    if s.len() == 0 {
        seq![(key, value)]
    } else if s[0].0 == key {
        seq![(key, value)] + s.drop_first()
    } else {
        seq![s[0]] + assoc_insert(s.drop_first(), key, value)
    }
}

/// No two entries share a key.
pub open spec fn unique_keys(s: Seq<EntryV>) -> bool {
    forall|i: int, j: int| 0 <= i < j < s.len() ==> (#[trigger] s[i]).0 != (#[trigger] s[j]).0
}

pub open spec fn entry_view(e: (String, (Vec<String>, bool))) -> EntryV {
    (e.0@, (e.1.0.deep_view(), e.1.1))
}

pub open spec fn entries_view(s: Seq<(String, (Vec<String>, bool))>) -> Seq<EntryV>
    decreases s,
{
    if s.len() == 0 {
        Seq::empty()
    } else {
        entries_view(s.drop_last()).push(entry_view(s.last()))
    }
}

pub broadcast proof fn lemma_entries_view_len(s: Seq<(String, (Vec<String>, bool))>)
    ensures
        #[trigger] entries_view(s).len() == s.len(),
    decreases s,
{
    if s.len() != 0 {
        lemma_entries_view_len(s.drop_last());
    }
}

pub broadcast proof fn lemma_entries_view_index(s: Seq<(String, (Vec<String>, bool))>, i: int)
    requires
        0 <= i < s.len(),
    ensures
        #[trigger] entries_view(s)[i] == entry_view(s[i]),
    decreases s,
{
    lemma_entries_view_len(s);
    if i < s.len() - 1 {
        lemma_entries_view_index(s.drop_last(), i);
    }
}

pub broadcast group group_entries_view {
    lemma_entries_view_len,
    lemma_entries_view_index,
}

/// Looking a key up at its first occurrence index reads that entry.
proof fn lemma_assoc_get_at(s: Seq<EntryV>, key: Seq<char>, i: int)
    requires
        0 <= i < s.len(),
        s[i].0 == key,
        forall|j: int| 0 <= j < i ==> (#[trigger] s[j]).0 != key,
    ensures
        assoc_get(s, key) == Some(s[i].1),
    decreases s,
{
    if i > 0 {
        lemma_assoc_get_at(s.drop_first(), key, i - 1);
    }
}

/// A key that no entry carries is not found.
proof fn lemma_assoc_get_none(s: Seq<EntryV>, key: Seq<char>)
    requires
        forall|j: int| 0 <= j < s.len() ==> (#[trigger] s[j]).0 != key,
    ensures
        assoc_get(s, key) is None,
    decreases s,
{
    if s.len() > 0 {
        lemma_assoc_get_none(s.drop_first(), key);
    }
}

/// Inserting over the first occurrence of a key is an update in place.
proof fn lemma_assoc_insert_update(s: Seq<EntryV>, key: Seq<char>, value: (Seq<Seq<char>>, bool), i: int)
    requires
        0 <= i < s.len(),
        s[i].0 == key,
        forall|j: int| 0 <= j < i ==> (#[trigger] s[j]).0 != key,
    ensures
        assoc_insert(s, key, value) == s.update(i, (key, value)),
    decreases s,
{
    if i == 0 {
        assert(assoc_insert(s, key, value) =~= s.update(0, (key, value)));
    } else {
        lemma_assoc_insert_update(s.drop_first(), key, value, i - 1);
        assert(assoc_insert(s, key, value) =~= s.update(i, (key, value)));
    }
}

/// Inserting an absent key appends the new entry.
proof fn lemma_assoc_insert_push(s: Seq<EntryV>, key: Seq<char>, value: (Seq<Seq<char>>, bool))
    requires
        forall|j: int| 0 <= j < s.len() ==> (#[trigger] s[j]).0 != key,
    ensures
        assoc_insert(s, key, value) == s.push((key, value)),
    decreases s,
{
    if s.len() == 0 {
        assert(assoc_insert(s, key, value) =~= s.push((key, value)));
    } else {
        lemma_assoc_insert_push(s.drop_first(), key, value);
        assert(assoc_insert(s, key, value) =~= s.push((key, value)));
    }
}

/// An ordered name-to-(dependencies, terminal) map, as the validator
/// flattens a graph into: keys are unique and keep their first-insertion
/// position, and a later insert of the same key overwrites its value.
#[derive(Debug)]
pub struct NodeMap {
    entries: Vec<(String, (Vec<String>, bool))>,
}

impl View for NodeMap {
    type V = Seq<EntryV>;

    closed spec fn view(&self) -> Seq<EntryV> {
        entries_view(self.entries@)
    }
}

impl NodeMap {
    /// Keys are pairwise distinct.
    pub open spec fn wf(&self) -> bool {
        unique_keys(self@)
    }

    pub fn new() -> (r: Self)
        ensures
            r@ == Seq::<EntryV>::empty(),
            r.wf(),
    {
        let r = NodeMap { entries: Vec::new() };
        proof {
            assert(r@ =~= Seq::<EntryV>::empty());
        }
        r
    }

    pub fn len(&self) -> (n: usize)
        ensures
            n == self@.len(),
    {
        broadcast use group_entries_view;

        self.entries.len()
    }

    /// Inserts a binding; an existing key keeps its position and gets the
    /// new value, a new key is appended.
    #[verifier::loop_isolation(false)]
    pub fn insert(&mut self, key: String, value: (Vec<String>, bool))
        ensures
            final(self)@ == assoc_insert(old(self)@, key@, (value.0.deep_view(), value.1)),
            old(self).wf() ==> final(self).wf(),
    {
        broadcast use group_entries_view;

        let ghost old_entries = self.entries@;
        let ghost old_view = self@;
        let ghost key_v = key@;
        let ghost value_v = (value.0.deep_view(), value.1);
        let mut i: usize = 0;
        while i < self.entries.len()
            invariant
                i <= self.entries.len(),
                self.entries@ == old_entries,
                self@ == old_view,
                forall|j: int| 0 <= j < i ==> (#[trigger] self@[j]).0 != key@,
            decreases self.entries.len() - i,
        {
            if str_eq_string(&self.entries[i].0, &key) {
                self.entries[i] = (key, value);
                proof {
                    let ne = self.entries@;
                    assert forall|k: int|
                        0 <= k < ne.len() implies #[trigger] entries_view(ne)[k] == old_view.update(
                        i as int,
                        (key_v, value_v),
                    )[k] by {
                        lemma_entries_view_index(ne, k);
                        lemma_entries_view_index(old_entries, k);
                    }
                    lemma_entries_view_len(ne);
                    assert(self@ =~= old_view.update(i as int, (key_v, value_v)));
                    lemma_assoc_insert_update(old_view, key_v, value_v, i as int);
                    if unique_keys(old_view) {
                        assert forall|a: int, b: int|
                            0 <= a < b < self@.len() implies (#[trigger] self@[a]).0 != (
                        #[trigger] self@[b]).0 by {
                            assert(old_view[i as int].0 == key_v);
                            if a != i {
                                assert(self@[a] == old_view[a]);
                            }
                            if b != i {
                                assert(self@[b] == old_view[b]);
                            }
                        }
                        assert(unique_keys(self@));
                    }
                }
                return;
            }
            i += 1;
        }
        self.entries.push((key, value));
        proof {
            let ne = self.entries@;
            assert(ne.drop_last() =~= old_entries);
            assert(entry_view(ne.last()) == (key_v, value_v));
            assert(entries_view(ne) == entries_view(old_entries).push((key_v, value_v)));
            assert(self@ =~= old_view.push((key_v, value_v)));
            lemma_assoc_insert_push(old_view, key_v, value_v);
            if unique_keys(old_view) {
                assert(unique_keys(self@));
            }
        }
    }

    /// Looks a name up.
    #[verifier::loop_isolation(false)]
    pub fn get(&self, key: &String) -> (r: Option<&(Vec<String>, bool)>)
        ensures
            match assoc_get(self@, key@) {
                Some(v) => r matches Some(e) && (e.0.deep_view(), e.1) == v,
                None => r is None,
            },
    {
        broadcast use group_entries_view;

        let mut i: usize = 0;
        while i < self.entries.len()
            invariant
                i <= self.entries.len(),
                forall|j: int| 0 <= j < i ==> (#[trigger] self@[j]).0 != key@,
            decreases self.entries.len() - i,
        {
            if str_eq_string(&self.entries[i].0, key) {
                proof {
                    lemma_assoc_get_at(self@, key@, i as int);
                }
                return Some(&self.entries[i].1);
            }
            i += 1;
        }
        proof {
            lemma_assoc_get_none(self@, key@);
        }
        None
    }

    /// Looks a name up by string slice.
    #[verifier::loop_isolation(false)]
    pub fn get_str(&self, key: &str) -> (r: Option<&(Vec<String>, bool)>)
        ensures
            match assoc_get(self@, key@) {
                Some(v) => r matches Some(e) && (e.0.deep_view(), e.1) == v,
                None => r is None,
            },
    {
        broadcast use group_entries_view;

        let mut i: usize = 0;
        while i < self.entries.len()
            invariant
                i <= self.entries.len(),
                forall|j: int| 0 <= j < i ==> (#[trigger] self@[j]).0 != key@,
            decreases self.entries.len() - i,
        {
            if crate::text::str_eq(self.entries[i].0.as_str(), key) {
                proof {
                    lemma_assoc_get_at(self@, key@, i as int);
                }
                return Some(&self.entries[i].1);
            }
            i += 1;
        }
        proof {
            lemma_assoc_get_none(self@, key@);
        }
        None
    }

    /// Whether a name is bound.
    pub fn contains_key(&self, key: &String) -> (r: bool)
        ensures
            r == assoc_contains(self@, key@),
    {
        match self.get(key) {
            Some(_) => true,
            None => false,
        }
    }

    /// The name of the entry at one position.
    pub fn key_at(&self, i: usize) -> (r: &String)
        requires
            i < self@.len(),
        ensures
            r@ == self@[i as int].0,
    {
        broadcast use group_entries_view;

        &self.entries[i].0
    }

    /// The dependency names of the entry at one position.
    pub fn deps_at(&self, i: usize) -> (r: &Vec<String>)
        requires
            i < self@.len(),
        ensures
            r.deep_view() == self@[i as int].1.0,
    {
        broadcast use group_entries_view;

        &self.entries[i].1.0
    }

    /// The terminal flag of the entry at one position.
    pub fn terminal_at(&self, i: usize) -> (r: bool)
        requires
            i < self@.len(),
        ensures
            r == self@[i as int].1.1,
    {
        broadcast use group_entries_view;

        self.entries[i].1.1
    }
}

/// String equality on `String` values.
fn str_eq_string(a: &String, b: &String) -> (r: bool)
    ensures
        r == (a@ == b@),
{
    crate::text::str_eq(a.as_str(), b.as_str())
}

/// What flattening one node adds to an accumulated entry list.
pub open spec fn collect_node(n: NodeV, acc: Seq<EntryV>) -> Seq<EntryV>
    decreases n,
{
    match n {
        NodeV::Atomic(name, deps, terminal) => assoc_insert(
            acc,
            name,
            (ir::dep_names(deps), terminal),
        ),
        NodeV::Sequence(children) => collect_list(children, acc),
        NodeV::Par(children) => collect_list(children, acc),
        NodeV::Dep(_) => acc,
    }
}

/// Flattens a node list left to right.
pub open spec fn collect_list(s: Seq<NodeV>, acc: Seq<EntryV>) -> Seq<EntryV>
    decreases s,
{
    if s.len() == 0 {
        acc
    } else {
        collect_node(s.last(), collect_list(s.drop_last(), acc))
    }
}

/// Flattening preserves key uniqueness.
proof fn lemma_assoc_insert_unique(s: Seq<EntryV>, key: Seq<char>, value: (Seq<Seq<char>>, bool))
    requires
        unique_keys(s),
    ensures
        unique_keys(assoc_insert(s, key, value)),
{
    if assoc_contains(s, key) {
        lemma_assoc_first_index(s, key);
        let i = choose|i: int|
            0 <= i < s.len() && s[i].0 == key && (forall|j: int|
                0 <= j < i ==> (#[trigger] s[j]).0 != key);
        lemma_assoc_insert_update(s, key, value, i);
    } else {
        lemma_assoc_not_contains(s, key);
        lemma_assoc_insert_push(s, key, value);
    }
}

/// A found key has a first occurrence index.
proof fn lemma_assoc_first_index(s: Seq<EntryV>, key: Seq<char>)
    requires
        assoc_contains(s, key),
    ensures
        exists|i: int|
            0 <= i < s.len() && (#[trigger] s[i]).0 == key && (forall|j: int|
                0 <= j < i ==> (#[trigger] s[j]).0 != key),
    decreases s,
{
    if s[0].0 == key {
        assert(0 <= 0 < s.len() && s[0].0 == key && (forall|j: int|
            0 <= j < 0 ==> (#[trigger] s[j]).0 != key));
    } else {
        lemma_assoc_first_index(s.drop_first(), key);
        let i0 = choose|i: int|
            0 <= i < s.drop_first().len() && (#[trigger] s.drop_first()[i]).0 == key && (forall|
                j: int,
            | 0 <= j < i ==> (#[trigger] s.drop_first()[j]).0 != key);
        assert(s[i0 + 1].0 == key);
        assert(forall|j: int| 0 <= j < i0 + 1 ==> (#[trigger] s[j]).0 != key) by {
            assert(forall|j: int|
                1 <= j < i0 + 1 ==> (#[trigger] s[j]).0 == s.drop_first()[j - 1].0);
        }
    }
}

/// A key that is not found is carried by no entry.
proof fn lemma_assoc_not_contains(s: Seq<EntryV>, key: Seq<char>)
    requires
        !assoc_contains(s, key),
    ensures
        forall|j: int| 0 <= j < s.len() ==> (#[trigger] s[j]).0 != key,
    decreases s,
{
    if s.len() > 0 {
        lemma_assoc_not_contains(s.drop_first(), key);
        assert(forall|j: int| 1 <= j < s.len() ==> (#[trigger] s[j]).0 == s.drop_first()[j - 1].0);
    }
}

/// Flattening preserves key uniqueness, node form.
proof fn lemma_collect_node_unique(n: NodeV, acc: Seq<EntryV>)
    requires
        unique_keys(acc),
    ensures
        unique_keys(collect_node(n, acc)),
    decreases n,
{
    match n {
        NodeV::Atomic(name, deps, terminal) => {
            lemma_assoc_insert_unique(acc, name, (ir::dep_names(deps), terminal));
        }
        NodeV::Sequence(children) => {
            lemma_collect_list_unique(children, acc);
        }
        NodeV::Par(children) => {
            lemma_collect_list_unique(children, acc);
        }
        NodeV::Dep(_) => {}
    }
}

/// Flattening preserves key uniqueness, list form.
proof fn lemma_collect_list_unique(s: Seq<NodeV>, acc: Seq<EntryV>)
    requires
        unique_keys(acc),
    ensures
        unique_keys(collect_list(s, acc)),
    decreases s,
{
    if s.len() != 0 {
        lemma_collect_list_unique(s.drop_last(), acc);
        lemma_collect_node_unique(s.last(), collect_list(s.drop_last(), acc));
    }
}

/// Flattens a node list into the map, later duplicates overwriting
/// earlier values.
#[verifier::loop_isolation(false)]
pub fn collect_nodes_recursive(nodes: &Vec<ir::Node>, map: &mut NodeMap)
    ensures
        final(map)@ == collect_list(ir::nodes_view(nodes@), old(map)@),
        old(map).wf() ==> final(map).wf(),
    decreases nodes,
{
    broadcast use ir::group_nodes_view;

    let ghost acc0 = map@;
    let ghost nv = ir::nodes_view(nodes@);
    let mut i: usize = 0;
    while i < nodes.len()
        invariant
            i <= nodes.len(),
            map@ == collect_list(nv.take(i as int), acc0),
            old(map).wf() ==> map.wf(),
        decreases nodes.len() - i,
    {
        let ghost cur = map@;
        proof {
            assert(nv.take(i + 1).drop_last() =~= nv.take(i as int));
            assert(nv.take(i + 1).last() == nv[i as int]);
            assert(ir::nodes_view(nodes@)[i as int] == ir::node_view(nodes@[i as int]));
        }
        match &nodes[i] {
            ir::Node::Atomic(name, deps, terminal) => {
                let mut dep_ids: Vec<String> = Vec::new();
                let ghost dv = ir::nodes_view(deps@);
                let mut j: usize = 0;
                while j < deps.len()
                    invariant
                        j <= deps.len(),
                        dep_ids.deep_view() == ir::dep_names(dv.take(j as int)),
                    decreases deps.len() - j,
                {
                    proof {
                        assert(dv.take(j + 1).drop_last() =~= dv.take(j as int));
                        assert(dv.take(j + 1).last() == dv[j as int]);
                        assert(ir::nodes_view(deps@)[j as int] == ir::node_view(
                            deps@[j as int],
                        ));
                    }
                    match &deps[j] {
                        ir::Node::Dep(dep_id) => {
                            dep_ids.push(dep_id.clone());
                            proof {
                                assert(dep_ids.deep_view() =~= ir::dep_names(dv.take(j + 1)));
                            }
                        }
                        _ => {
                            proof {
                                assert(dep_ids.deep_view() =~= ir::dep_names(dv.take(j + 1)));
                            }
                        }
                    }
                    j += 1;
                }
                proof {
                    assert(ir::nodes_view(deps@).len() == deps@.len());
                    assert(dv.take(deps@.len() as int) =~= dv);
                    assert(dep_ids.deep_view() == ir::dep_names(dv));
                }
                map.insert(name.clone(), (dep_ids, *terminal));
                proof {
                    assert(map@ == collect_node(nv[i as int], cur));
                }
            }
            ir::Node::Sequence(children) => {
                proof {
                    assert(decreases_to!(*nodes => nodes[i as int]));
                    assert(decreases_to!(nodes[i as int] => nodes[i as int]->Sequence_0));
                }
                collect_nodes_recursive(children, map);
                proof {
                    assert(map@ == collect_node(nv[i as int], cur));
                }
            }
            ir::Node::Par(children) => {
                proof {
                    assert(decreases_to!(*nodes => nodes[i as int]));
                    assert(decreases_to!(nodes[i as int] => nodes[i as int]->Par_0));
                }
                collect_nodes_recursive(children, map);
                proof {
                    assert(map@ == collect_node(nv[i as int], cur));
                }
            }
            ir::Node::Dep(_) => {
                proof {
                    assert(map@ == collect_node(nv[i as int], cur));
                }
            }
        }
        proof {
            assert(map@ == collect_list(nv.take(i + 1), acc0));
        }
        i += 1;
    }
    proof {
        assert(nv.take(nodes@.len() as int) =~= nv);
    }
}

/// Flattens a whole graph into a fresh map.
pub fn collect_all_nodes(nodes: &Vec<ir::Node>) -> (r: NodeMap)
    ensures
        r@ == collect_list(ir::nodes_view(nodes@), Seq::empty()),
        r.wf(),
{
    let mut map = NodeMap::new();
    proof {
        lemma_collect_list_unique(ir::nodes_view(nodes@), Seq::empty());
    }
    collect_nodes_recursive(nodes, &mut map);
    map
}

/// The message reported for a missing dependency.
pub open spec fn missing_msg(name: Seq<char>, dep: Seq<char>) -> Seq<char> {
    "Node '"@ + name + "' depends on '"@ + dep + "' which doesn't exist"@
}

fn missing_message(name: &String, dep: &String) -> (m: String)
    ensures
        m@ == missing_msg(name@, dep@),
{
    let mut m = String::from_str("Node '");
    m.append(name.as_str());
    m.append("' depends on '");
    m.append(dep.as_str());
    m.append("' which doesn't exist");
    m
}

/// The missing-dependency findings one entry contributes, in dependency
/// order.
pub open spec fn entry_missing_errors(
    name: Seq<char>,
    deps: Seq<Seq<char>>,
    entries: Seq<EntryV>,
) -> Seq<ValidationErrorV>
    decreases deps,
{
    if deps.len() == 0 {
        Seq::empty()
    } else {
        entry_missing_errors(name, deps.drop_last(), entries) + (if assoc_contains(
            entries,
            deps.last(),
        ) {
            Seq::empty()
        } else {
            seq![
                ValidationErrorV {
                    kind: ValidationErrorKind::MissingDependency,
                    message: missing_msg(name, deps.last()),
                },
            ]
        })
    }
}

/// All missing-dependency findings of a prefix of the entry list, checked
/// against the whole list.
pub open spec fn missing_errors(s: Seq<EntryV>, entries: Seq<EntryV>) -> Seq<ValidationErrorV>
    decreases s,
{
    if s.len() == 0 {
        Seq::empty()
    } else {
        missing_errors(s.drop_last(), entries) + entry_missing_errors(
            s.last().0,
            s.last().1.0,
            entries,
        )
    }
}

/// Checks that every dependency names an existing task.  Returns all
/// violations, one finding per missing name, in entry order; succeeds
/// exactly when there is none.
#[verifier::loop_isolation(false)]
pub fn check_missing_dependencies(nodes: &NodeMap) -> (r: Result<(), Vec<ValidationError>>)
    ensures
        r is Ok <==> missing_errors(nodes@, nodes@).len() == 0,
        r matches Err(es) ==> errors_view(es@) == missing_errors(nodes@, nodes@),
{
    broadcast use group_errors_view;

    let mut errors: Vec<ValidationError> = Vec::new();
    let n = nodes.len();
    let mut i: usize = 0;
    while i < n
        invariant
            i <= n,
            errors_view(errors@) == missing_errors(nodes@.take(i as int), nodes@),
        decreases n - i,
    {
        proof {
            assert(nodes@.take(i + 1).drop_last() =~= nodes@.take(i as int));
            assert(nodes@.take(i + 1).last() == nodes@[i as int]);
        }
        let deps = nodes.deps_at(i);
        let ghost name_v = nodes@[i as int].0;
        let ghost deps_v = nodes@[i as int].1.0;
        let mut j: usize = 0;
        while j < deps.len()
            invariant
                j <= deps.len(),
                deps.deep_view() == deps_v,
                errors_view(errors@) == missing_errors(nodes@.take(i as int), nodes@)
                    + entry_missing_errors(name_v, deps_v.take(j as int), nodes@),
            decreases deps.len() - j,
        {
            proof {
                assert(deps_v.take(j + 1).drop_last() =~= deps_v.take(j as int));
                assert(deps_v.take(j + 1).last() == deps_v[j as int]);
                assert(deps@[j as int]@ == deps.deep_view()[j as int]);
            }
            let ghost es0 = errors@;
            if !nodes.contains_key(&deps[j]) {
                let name = nodes.key_at(i);
                let e = ValidationError::new(
                    ValidationErrorKind::MissingDependency,
                    missing_message(name, &deps[j]),
                );
                errors.push(e);
                proof {
                    assert(errors@.drop_last() =~= es0);
                    assert(errors_view(errors@) == errors_view(es0).push(errors@.last()@));
                    assert(errors@.last()@ == ValidationErrorV {
                        kind: ValidationErrorKind::MissingDependency,
                        message: missing_msg(name_v, deps_v[j as int]),
                    });
                }
            }
            proof {
                assert(errors_view(errors@) =~= missing_errors(nodes@.take(i as int), nodes@)
                    + entry_missing_errors(name_v, deps_v.take(j + 1), nodes@));
            }
            j += 1;
        }
        proof {
            assert(deps_v.take(deps_v.len() as int) =~= deps_v);
            assert(errors_view(errors@) =~= missing_errors(nodes@.take(i + 1), nodes@));
        }
        i += 1;
    }
    proof {
        assert(nodes@.take(nodes@.len() as int) =~= nodes@);
    }
    if errors.len() == 0 {
        Ok(())
    } else {
        Err(errors)
    }
}


/// Removes the first occurrence of a name from a list.
pub open spec fn remove_first(s: Seq<Seq<char>>, x: Seq<char>) -> Seq<Seq<char>>
    decreases s,
{
    if s.len() == 0 {
        s
    } else if s[0] == x {
        s.drop_first()
    } else {
        seq![s[0]] + remove_first(s.drop_first(), x)
    }
}

/// Removing a name whose first occurrence is at one index is `remove`.
proof fn lemma_remove_first_at(s: Seq<Seq<char>>, x: Seq<char>, i: int)
    requires
        0 <= i < s.len(),
        s[i] == x,
        forall|j: int| 0 <= j < i ==> s[j] != x,
    ensures
        remove_first(s, x) == s.remove(i),
    decreases s,
{
    if i == 0 {
        assert(remove_first(s, x) =~= s.remove(0));
    } else {
        lemma_remove_first_at(s.drop_first(), x, i - 1);
        assert(remove_first(s, x) =~= s.remove(i));
    }
}

/// Removing an absent name changes nothing.
proof fn lemma_remove_first_absent(s: Seq<Seq<char>>, x: Seq<char>)
    requires
        forall|j: int| 0 <= j < s.len() ==> s[j] != x,
    ensures
        remove_first(s, x) == s,
    decreases s,
{
    if s.len() > 0 {
        lemma_remove_first_absent(s.drop_first(), x);
        assert(remove_first(s, x) =~= s);
    }
}

/// The index of the first occurrence of a name, or the length if absent.
pub open spec fn first_index_of(s: Seq<Seq<char>>, x: Seq<char>) -> int
    decreases s,
{
    if s.len() == 0 {
        0
    } else if s[0] == x {
        0
    } else {
        1 + first_index_of(s.drop_first(), x)
    }
}

pub proof fn lemma_first_index_of(s: Seq<Seq<char>>, x: Seq<char>)
    ensures
        0 <= first_index_of(s, x) <= s.len(),
        first_index_of(s, x) < s.len() ==> s[first_index_of(s, x)] == x,
        forall|j: int| 0 <= j < first_index_of(s, x) ==> s[j] != x,
        first_index_of(s, x) == s.len() ==> !s.contains(x),
    decreases s,
{
    if s.len() > 0 && s[0] != x {
        lemma_first_index_of(s.drop_first(), x);
        assert(forall|j: int| 1 <= j < s.len() ==> s[j] == s.drop_first()[j - 1]);
        if first_index_of(s, x) == s.len() {
            assert forall|j: int| 0 <= j < s.len() implies s[j] != x by {}
            if s.contains(x) {
                let w = choose|w: int| 0 <= w < s.len() && s[w] == x;
                assert(s[w] != x);
            }
        }
    }
}

/// A reported cycle runs from the repeated name back to itself: it
/// carries that name at both ends, and spans at least one edge whenever
/// the name stood on the path.
pub proof fn lemma_cycle_from_endpoints(path: Seq<Seq<char>>, d: Seq<char>)
    ensures
        cycle_from(path, d).len() >= 1,
        cycle_from(path, d)[0] == d,
        cycle_from(path, d).last() == d,
        path.contains(d) ==> cycle_from(path, d).len() >= 2,
{
    lemma_first_index_of(path, d);
}

/// The cycle reported when a back edge to a name on the path is found:
/// the path from the first occurrence of that name onward, with the name
/// repeated at the end.
pub open spec fn cycle_from(path: Seq<Seq<char>>, d: Seq<char>) -> Seq<Seq<char>> {
    path.subrange(first_index_of(path, d), path.len() as int).push(d)
}

/// One step of the depth-first search: visit a name, walk its
/// dependencies, and undo the stack bookkeeping unless a cycle was found.
/// The fuel bounds the recursion depth; an exhausted search gives up and
/// reports nothing.
pub open spec fn dfs_node(
    m: Seq<EntryV>,
    id: Seq<char>,
    vis: Seq<Seq<char>>,
    stk: Seq<Seq<char>>,
    path: Seq<Seq<char>>,
    fuel: nat,
) -> (Seq<Seq<char>>, Seq<Seq<char>>, Seq<Seq<char>>, Option<Seq<Seq<char>>>)
    decreases fuel, 0int,
{
    if fuel == 0 {
        (vis, stk, path, None)
    } else {
        let vis1 = vis.push(id);
        let stk1 = stk.push(id);
        let path1 = path.push(id);
        let stepped = match assoc_get(m, id) {
            Some(e) => dfs_deps(m, e.0, vis1, stk1, path1, (fuel - 1) as nat),
            None => (vis1, stk1, path1, None),
        };
        match stepped.3 {
            Some(c) => stepped,
            None => (stepped.0, remove_first(stepped.1, id), stepped.2.drop_last(), None),
        }
    }
}

/// Walks one dependency list left to right, recursing into unvisited
/// names and reporting a cycle on the first back edge.
pub open spec fn dfs_deps(
    m: Seq<EntryV>,
    deps: Seq<Seq<char>>,
    vis: Seq<Seq<char>>,
    stk: Seq<Seq<char>>,
    path: Seq<Seq<char>>,
    fuel: nat,
) -> (Seq<Seq<char>>, Seq<Seq<char>>, Seq<Seq<char>>, Option<Seq<Seq<char>>>)
    decreases fuel, deps.len() + 1,
{
    if deps.len() == 0 {
        (vis, stk, path, None)
    } else {
        let d = deps[0];
        if !vis.contains(d) {
            let stepped = dfs_node(m, d, vis, stk, path, fuel);
            match stepped.3 {
                Some(c) => stepped,
                None => dfs_deps(m, deps.drop_first(), stepped.0, stepped.1, stepped.2, fuel),
            }
        } else if stk.contains(d) {
            (vis, stk, path, Some(cycle_from(path, d)))
        } else {
            dfs_deps(m, deps.drop_first(), vis, stk, path, fuel)
        }
    }
}

/// The message reported for one dependency cycle.
pub open spec fn cycle_msg(c: Seq<Seq<char>>) -> Seq<char> {
    "Circular dependency detected: "@ + join_arrow(c)
}

/// Names joined with " -> " separators.
pub open spec fn join_arrow(s: Seq<Seq<char>>) -> Seq<char>
    decreases s,
{
    if s.len() == 0 {
        Seq::empty()
    } else if s.len() == 1 {
        s[0]
    } else {
        join_arrow(s.drop_last()) + " -> "@ + s.last()
    }
}

pub open spec fn cycle_error(c: Seq<Seq<char>>) -> ValidationErrorV {
    ValidationErrorV { kind: ValidationErrorKind::CircularDependency, message: cycle_msg(c) }
}

/// Runs the depth-first search from every entry not yet visited, in entry
/// order, collecting one finding per root whose search hits a back edge.
/// The visited and stack lists thread through the whole pass.
pub open spec fn cycle_check(
    m: Seq<EntryV>,
    roots: Seq<EntryV>,
    vis: Seq<Seq<char>>,
    stk: Seq<Seq<char>>,
    fuel: nat,
) -> (Seq<Seq<char>>, Seq<Seq<char>>, Seq<ValidationErrorV>)
    decreases roots,
{
    if roots.len() == 0 {
        (vis, stk, Seq::empty())
    } else {
        let key = roots[0].0;
        if vis.contains(key) {
            cycle_check(m, roots.drop_first(), vis, stk, fuel)
        } else {
            let stepped = dfs_node(m, key, vis, stk, Seq::empty(), fuel);
            let rest = cycle_check(m, roots.drop_first(), stepped.0, stepped.1, fuel);
            match stepped.3 {
                Some(c) => (rest.0, rest.1, seq![cycle_error(c)] + rest.2),
                None => rest,
            }
        }
    }
}

/// Prefixes a list of findings onto the third component.
pub open spec fn with_errors(
    errs: Seq<ValidationErrorV>,
    t: (Seq<Seq<char>>, Seq<Seq<char>>, Seq<ValidationErrorV>),
) -> (Seq<Seq<char>>, Seq<Seq<char>>, Seq<ValidationErrorV>) {
    (t.0, t.1, errs + t.2)
}

/// The fuel handed to every depth-first search: enough for any chain of
/// distinct names through the map.
pub open spec fn search_fuel(n: nat) -> nat {
    if n + 2 <= usize::MAX {
        (n + 2) as nat
    } else {
        usize::MAX as nat
    }
}

/// Whether a list of names contains one name.
#[verifier::loop_isolation(false)]
fn vec_contains_string(v: &Vec<String>, x: &String) -> (r: bool)
    ensures
        r == v.deep_view().contains(x@),
{
    let mut i: usize = 0;
    while i < v.len()
        invariant
            i <= v.len(),
            forall|j: int| 0 <= j < i ==> v.deep_view()[j] != x@,
        decreases v.len() - i,
    {
        if str_eq_string(&v[i], x) {
            proof {
                assert(v.deep_view()[i as int] == x@);
            }
            return true;
        }
        i += 1;
    }
    proof {
        if v.deep_view().contains(x@) {
            let w = choose|w: int| 0 <= w < v.deep_view().len() && v.deep_view()[w] == x@;
            assert(v.deep_view()[w] != x@);
        }
    }
    false
}

/// Removes the first occurrence of a name, if any.
#[verifier::loop_isolation(false)]
fn remove_first_string(v: &mut Vec<String>, x: &String)
    ensures
        final(v).deep_view() == remove_first(old(v).deep_view(), x@),
{
    let ghost dv = v.deep_view();
    let mut i: usize = 0;
    while i < v.len()
        invariant
            i <= v.len(),
            *v == *old(v),
            forall|j: int| 0 <= j < i ==> dv[j] != x@,
        decreases v.len() - i,
    {
        if str_eq_string(&v[i], x) {
            v.remove(i);
            proof {
                assert(dv[i as int] == x@);
                lemma_remove_first_at(dv, x@, i as int);
                assert(v.deep_view() =~= dv.remove(i as int));
            }
            return;
        }
        i += 1;
    }
    proof {
        lemma_remove_first_absent(dv, x@);
    }
}

/// Builds the reported cycle: the path from the first occurrence of the
/// repeated name onward, with that name appended.
#[verifier::loop_isolation(false)]
fn build_cycle(path: &Vec<String>, dep: &String) -> (r: Vec<String>)
    ensures
        r.deep_view() == cycle_from(path.deep_view(), dep@),
{
    let ghost pv = path.deep_view();
    proof {
        lemma_first_index_of(pv, dep@);
    }
    let ghost k = first_index_of(pv, dep@);
    let mut cycle: Vec<String> = Vec::new();
    let mut found = false;
    let mut i: usize = 0;
    while i < path.len()
        invariant
            i <= path.len(),
            found <==> k < i,
            cycle.deep_view() =~= (if found {
                pv.subrange(k, i as int)
            } else {
                Seq::<Seq<char>>::empty()
            }),
        decreases path.len() - i,
    {
        if str_eq_string(&path[i], dep) {
            proof {
                assert(pv[i as int] == dep@);
                assert(k <= i);
            }
            found = true;
        }
        if found {
            cycle.push(path[i].clone());
            proof {
                assert(cycle.deep_view() =~= pv.subrange(k, i + 1));
            }
        }
        i += 1;
    }
    cycle.push(dep.clone());
    proof {
        if k == pv.len() {
            assert(cycle.deep_view() =~= pv.subrange(k, pv.len() as int).push(dep@));
        } else {
            assert(cycle.deep_view() =~= pv.subrange(k, pv.len() as int).push(dep@));
        }
    }
    cycle
}


/// Builds the message for one cycle finding.
#[verifier::loop_isolation(false)]
fn cycle_message(cycle: &Vec<String>) -> (m: String)
    ensures
        m@ == cycle_msg(cycle.deep_view()),
{
    let ghost cv = cycle.deep_view();
    let mut joined = String::new();
    let mut i: usize = 0;
    while i < cycle.len()
        invariant
            i <= cycle.len(),
            joined@ == join_arrow(cv.take(i as int)),
        decreases cycle.len() - i,
    {
        proof {
            assert(cv.take(i + 1).drop_last() =~= cv.take(i as int));
            assert(cv.take(i + 1).last() == cv[i as int]);
            assert(cycle@[i as int]@ == cv[i as int]);
        }
        if i > 0 {
            joined.append(" -> ");
        }
        joined.append(cycle[i].as_str());
        proof {
            if i == 0 {
                assert(joined@ =~= join_arrow(cv.take(1)));
            } else {
                assert(joined@ =~= join_arrow(cv.take(i + 1)));
            }
        }
        i += 1;
    }
    proof {
        assert(cv.take(cv.len() as int) =~= cv);
    }
    let mut m = String::from_str("Circular dependency detected: ");
    m.append(joined.as_str());
    m
}

/// A search that reports nothing leaves the path as it found it,
/// node form.
proof fn lemma_dfs_none_restores_node(
    m: Seq<EntryV>,
    id: Seq<char>,
    vis: Seq<Seq<char>>,
    stk: Seq<Seq<char>>,
    path: Seq<Seq<char>>,
    fuel: nat,
)
    ensures
        ({
            let t = dfs_node(m, id, vis, stk, path, fuel);
            t.3 is None ==> t.2 == path
        }),
    decreases fuel, 0int,
{
    if fuel > 0 {
        let vis1 = vis.push(id);
        let stk1 = stk.push(id);
        let path1 = path.push(id);
        assert(path1.drop_last() =~= path);
        match assoc_get(m, id) {
            Some(e) => {
                lemma_dfs_none_restores_deps(m, e.0, vis1, stk1, path1, (fuel - 1) as nat);
            }
            None => {}
        }
    }
}

/// A search that reports nothing leaves the path as it found it,
/// dependency-list form.
proof fn lemma_dfs_none_restores_deps(
    m: Seq<EntryV>,
    deps: Seq<Seq<char>>,
    vis: Seq<Seq<char>>,
    stk: Seq<Seq<char>>,
    path: Seq<Seq<char>>,
    fuel: nat,
)
    ensures
        ({
            let t = dfs_deps(m, deps, vis, stk, path, fuel);
            t.3 is None ==> t.2 == path
        }),
    decreases fuel, deps.len() + 1,
{
    if deps.len() > 0 {
        let d = deps[0];
        if !vis.contains(d) {
            lemma_dfs_none_restores_node(m, d, vis, stk, path, fuel);
            let stepped = dfs_node(m, d, vis, stk, path, fuel);
            if stepped.3 is None {
                lemma_dfs_none_restores_deps(
                    m,
                    deps.drop_first(),
                    stepped.0,
                    stepped.1,
                    stepped.2,
                    fuel,
                );
            }
        } else if !stk.contains(d) {
            lemma_dfs_none_restores_deps(m, deps.drop_first(), vis, stk, path, fuel);
        }
    }
}

/// Depth-first search for one dependency cycle, mirroring [`dfs_node`]
/// exactly: marks the name visited, walks its dependencies, reports the
/// first back edge as a cycle, and restores the stack and path
/// bookkeeping when none is found.
#[verifier::loop_isolation(false)]
pub fn detect_cycle(
    node_id: &String,
    nodes: &NodeMap,
    visited: &mut Vec<String>,
    rec_stack: &mut Vec<String>,
    path: &mut Vec<String>,
    fuel: usize,
) -> (r: Option<Vec<String>>)
    ensures
        ({
            let t = dfs_node(
                nodes@,
                node_id@,
                old(visited).deep_view(),
                old(rec_stack).deep_view(),
                old(path).deep_view(),
                fuel as nat,
            );
            &&& final(visited).deep_view() == t.0
            &&& final(rec_stack).deep_view() == t.1
            &&& final(path).deep_view() == t.2
            &&& (match r {
                Some(c) => t.3 matches Some(cv) && c.deep_view() == cv,
                None => t.3 is None,
            })
        }),
    decreases fuel,
{
    let ghost t = dfs_node(
        nodes@,
        node_id@,
        old(visited).deep_view(),
        old(rec_stack).deep_view(),
        old(path).deep_view(),
        fuel as nat,
    );
    if fuel == 0 {
        return None;
    }
    let ghost vis0 = visited.deep_view();
    let ghost stk0 = rec_stack.deep_view();
    let ghost path0 = path.deep_view();
    visited.push(node_id.clone());
    rec_stack.push(node_id.clone());
    path.push(node_id.clone());
    proof {
        assert(visited.deep_view() =~= vis0.push(node_id@));
        assert(rec_stack.deep_view() =~= stk0.push(node_id@));
        assert(path.deep_view() =~= path0.push(node_id@));
    }
    let ghost vis1 = visited.deep_view();
    let ghost stk1 = rec_stack.deep_view();
    let ghost path1 = path.deep_view();
    match nodes.get(node_id) {
        Some(entry) => {
            let deps = &entry.0;
            let ghost dv = deps.deep_view();
            let ghost target = dfs_deps(
                nodes@,
                dv,
                visited.deep_view(),
                rec_stack.deep_view(),
                path.deep_view(),
                (fuel - 1) as nat,
            );
            proof {
                assert(t == (if target.3 is Some {
                    target
                } else {
                    (target.0, remove_first(target.1, node_id@), target.2.drop_last(), None)
                }));
            }
            proof {
                assert(dv.skip(0) =~= dv);
            }
            let mut j: usize = 0;
            while j < deps.len()
                invariant
                    j <= deps.len(),
                    target == dfs_deps(
                        nodes@,
                        dv.skip(j as int),
                        visited.deep_view(),
                        rec_stack.deep_view(),
                        path.deep_view(),
                        (fuel - 1) as nat,
                    ),
                decreases deps.len() - j,
            {
                proof {
                    assert(dv.skip(j as int).len() > 0);
                    assert(dv.skip(j as int)[0] == dv[j as int]);
                    assert(dv.skip(j as int).drop_first() =~= dv.skip(j + 1));
                    assert(deps@[j as int]@ == dv[j as int]);
                }
                let d = &deps[j];
                if !vec_contains_string(visited, d) {
                    match detect_cycle(d, nodes, visited, rec_stack, path, fuel - 1) {
                        Some(c) => {
                            return Some(c);
                        }
                        None => {}
                    }
                } else if vec_contains_string(rec_stack, d) {
                    let c = build_cycle(path, d);
                    return Some(c);
                }
                j += 1;
            }
            proof {
                assert(dv.skip(deps@.len() as int) =~= Seq::<Seq<char>>::empty());
                lemma_dfs_none_restores_deps(nodes@, dv, vis1, stk1, path1, (fuel - 1) as nat);
                assert(path.deep_view() == path1);
                assert(path1.len() > 0);
            }
            remove_first_string(rec_stack, node_id);
            let ghost path_before = path.deep_view();
            path.pop();
            proof {
                assert(path.deep_view() =~= path_before.drop_last());
            }
            None
        }
        None => {
            remove_first_string(rec_stack, node_id);
            let ghost path_before = path.deep_view();
            path.pop();
            proof {
                assert(path.deep_view() =~= path_before.drop_last());
            }
            None
        }
    }
}

/// Checks for dependency cycles by depth-first search from every entry,
/// in entry order; one finding per root whose search meets a back edge.
#[verifier::loop_isolation(false)]
pub fn check_circular_dependencies(nodes: &NodeMap) -> (r: Result<(), Vec<ValidationError>>)
    ensures
        ({
            let errs = cycle_check(
                nodes@,
                nodes@,
                Seq::empty(),
                Seq::empty(),
                search_fuel(nodes@.len()),
            ).2;
            &&& (r is Ok <==> errs.len() == 0)
            &&& (r matches Err(es) ==> errors_view(es@) == errs)
        }),
{
    broadcast use group_errors_view;

    let n = nodes.len();
    let fuel: usize = if n <= usize::MAX - 2 {
        n + 2
    } else {
        usize::MAX
    };
    let ghost full = cycle_check(nodes@, nodes@, Seq::empty(), Seq::empty(), fuel as nat);
    let mut errors: Vec<ValidationError> = Vec::new();
    let mut visited: Vec<String> = Vec::new();
    let mut rec_stack: Vec<String> = Vec::new();
    proof {
        assert(visited.deep_view() =~= Seq::<Seq<char>>::empty());
        assert(rec_stack.deep_view() =~= Seq::<Seq<char>>::empty());
        assert(nodes@.skip(0) =~= nodes@);
        assert(errors_view(errors@) + full.2 =~= full.2);
    }
    let mut i: usize = 0;
    while i < n
        invariant
            i <= n,
            full == with_errors(
                errors_view(errors@),
                cycle_check(
                    nodes@,
                    nodes@.skip(i as int),
                    visited.deep_view(),
                    rec_stack.deep_view(),
                    fuel as nat,
                ),
            ),
        decreases n - i,
    {
        proof {
            assert(nodes@.skip(i as int).len() > 0);
            assert(nodes@.skip(i as int)[0] == nodes@[i as int]);
            assert(nodes@.skip(i as int).drop_first() =~= nodes@.skip(i + 1));
        }
        let key = nodes.key_at(i);
        if !vec_contains_string(&visited, key) {
            let mut path: Vec<String> = Vec::new();
            proof {
                assert(path.deep_view() =~= Seq::<Seq<char>>::empty());
            }
            let ghost sub = cycle_check(
                nodes@,
                nodes@.skip(i as int),
                visited.deep_view(),
                rec_stack.deep_view(),
                fuel as nat,
            );
            match detect_cycle(key, nodes, &mut visited, &mut rec_stack, &mut path, fuel) {
                Some(cycle) => {
                    let ghost es0 = errors@;
                    let msg = cycle_message(&cycle);
                    let e = ValidationError::new(ValidationErrorKind::CircularDependency, msg);
                    errors.push(e);
                    proof {
                        assert(errors@.drop_last() =~= es0);
                        assert(errors_view(errors@) == errors_view(es0).push(errors@.last()@));
                        assert(errors@.last()@ == cycle_error(cycle.deep_view()));
                        assert(errors_view(es0) + (seq![cycle_error(cycle.deep_view())]
                            + cycle_check(
                            nodes@,
                            nodes@.skip(i + 1),
                            visited.deep_view(),
                            rec_stack.deep_view(),
                            fuel as nat,
                        ).2) =~= errors_view(errors@) + cycle_check(
                            nodes@,
                            nodes@.skip(i + 1),
                            visited.deep_view(),
                            rec_stack.deep_view(),
                            fuel as nat,
                        ).2);
                    }
                }
                None => {}
            }
        }
        i += 1;
    }
    proof {
        assert(nodes@.skip(n as int) =~= Seq::<EntryV>::empty());
        assert(errors_view(errors@) + Seq::<ValidationErrorV>::empty() =~= errors_view(errors@));
    }
    if errors.len() == 0 {
        Ok(())
    } else {
        Err(errors)
    }
}

/// Every finding of one validation pass, missing dependencies first.
pub open spec fn validation_errors(g: Seq<NodeV>) -> Seq<ValidationErrorV> {
    let entries = collect_list(g, Seq::empty());
    missing_errors(entries, entries) + cycle_check(
        entries,
        entries,
        Seq::empty(),
        Seq::empty(),
        search_fuel(entries.len()),
    ).2
}

/// The validator's result: nothing, or every finding of the pass.
pub type ValidationResult = Result<(), Vec<ValidationError>>;

/// Validates a graph: flattens it, reports every missing dependency and
/// every dependency cycle the search finds, and succeeds exactly when
/// there is no finding.
pub fn validate(graph: &ir::Graph) -> (r: ValidationResult)
    ensures
        r is Ok <==> validation_errors(graph@).len() == 0,
        r matches Err(es) ==> errors_view(es@) == validation_errors(graph@),
{
    broadcast use group_errors_view;

    let all_nodes = collect_all_nodes(&graph.0);
    let mut errors: Vec<ValidationError> = Vec::new();
    let ghost entries = collect_list(ir::nodes_view(graph.0@), Seq::empty());
    let ghost miss = missing_errors(entries, entries);
    let ghost circ = cycle_check(
        entries,
        entries,
        Seq::empty(),
        Seq::empty(),
        search_fuel(entries.len()),
    ).2;
    match check_missing_dependencies(&all_nodes) {
        Ok(()) => {}
        Err(mut missing) => {
            errors.append(&mut missing);
        }
    }
    proof {
        assert(errors_view(errors@) =~= miss) by {
            if miss.len() == 0 {
                assert(errors@ =~= Seq::<ValidationError>::empty());
            }
        }
    }
    let ghost mid = errors@;
    match check_circular_dependencies(&all_nodes) {
        Ok(()) => {}
        Err(mut circular) => {
            errors.append(&mut circular);
        }
    }
    proof {
        lemma_errors_view_concat(mid, errors@.skip(mid.len() as int));
        assert(errors@ =~= mid + errors@.skip(mid.len() as int));
        lemma_errors_view_concat(mid, errors@.skip(mid.len() as int));
        assert(errors_view(errors@) =~= miss + circ);
        assert(validation_errors(graph@) == miss + circ);
    }
    if errors.len() == 0 {
        Ok(())
    } else {
        Err(errors)
    }
}

/// Error views distribute over concatenation.
proof fn lemma_errors_view_concat(a: Seq<ValidationError>, b: Seq<ValidationError>)
    ensures
        errors_view(a + b) == errors_view(a) + errors_view(b),
    decreases b,
{
    broadcast use group_errors_view;

    if b.len() == 0 {
        assert(a + b =~= a);
        assert(errors_view(a) + errors_view(b) =~= errors_view(a));
    } else {
        lemma_errors_view_concat(a, b.drop_last());
        assert((a + b).drop_last() =~= a + b.drop_last());
        assert(errors_view(a) + errors_view(b) =~= (errors_view(a) + errors_view(
            b.drop_last(),
        )).push(b.last()@));
    }
}

/// Whether a name is bound to a terminal task.
pub open spec fn is_terminal_name(entries: Seq<EntryV>, d: Seq<char>) -> bool {
    match assoc_get(entries, d) {
        Some(v) => v.1,
        None => false,
    }
}

/// How many of a list of dependencies count as live connections: every
/// one except those bound to a terminal task.
pub open spec fn live_connections(deps: Seq<Seq<char>>, entries: Seq<EntryV>) -> nat
    decreases deps,
{
    if deps.len() == 0 {
        0
    } else {
        live_connections(deps.drop_last(), entries) + (if is_terminal_name(
            entries,
            deps.last(),
        ) {
            0nat
        } else {
            1nat
        })
    }
}

/// The direct connection count of one task: its dependencies, not
/// counting those on terminal tasks; zero for an unknown name.
pub open spec fn connection_count(id: Seq<char>, entries: Seq<EntryV>) -> nat {
    match assoc_get(entries, id) {
        Some(e) => live_connections(e.0, entries),
        None => 0,
    }
}

/// Counts the direct connections of one task; dependencies on terminal
/// tasks are not counted, and a dependency on an unknown name is.
#[verifier::loop_isolation(false)]
pub fn count_connections(node_id: &str, nodes: &NodeMap) -> (r: usize)
    ensures
        r == connection_count(node_id@, nodes@),
{
    match nodes.get_str(node_id) {
        Some(entry) => {
            let deps = &entry.0;
            let ghost dv = deps.deep_view();
            let mut count: usize = 0;
            let mut j: usize = 0;
            while j < deps.len()
                invariant
                    j <= deps.len(),
                    count <= j,
                    count == live_connections(dv.take(j as int), nodes@),
                decreases deps.len() - j,
            {
                proof {
                    assert(dv.take(j + 1).drop_last() =~= dv.take(j as int));
                    assert(dv.take(j + 1).last() == dv[j as int]);
                    assert(deps@[j as int]@ == dv[j as int]);
                }
                let live = match nodes.get(&deps[j]) {
                    Some(dep_entry) => !dep_entry.1,
                    None => true,
                };
                if live {
                    count += 1;
                }
                j += 1;
            }
            proof {
                assert(dv.take(dv.len() as int) =~= dv);
            }
            count
        }
        None => 0,
    }
}


/// A finding whose message shows a name path that returns to its start.
pub open spec fn is_cycle_shaped(e: ValidationErrorV) -> bool {
    exists|c: Seq<Seq<char>>|
        c.len() >= 1 && c[0] == c.last() && e == #[trigger] cycle_error(c)
}

/// Any cycle the search reports returns to its start, node form.
proof fn lemma_dfs_cycle_shape_node(
    m: Seq<EntryV>,
    id: Seq<char>,
    vis: Seq<Seq<char>>,
    stk: Seq<Seq<char>>,
    path: Seq<Seq<char>>,
    fuel: nat,
)
    ensures
        ({
            let t = dfs_node(m, id, vis, stk, path, fuel);
            t.3 matches Some(c) ==> c.len() >= 1 && c[0] == c.last()
        }),
    decreases fuel, 0int,
{
    if fuel > 0 {
        match assoc_get(m, id) {
            Some(e) => {
                lemma_dfs_cycle_shape_deps(
                    m,
                    e.0,
                    vis.push(id),
                    stk.push(id),
                    path.push(id),
                    (fuel - 1) as nat,
                );
            }
            None => {}
        }
    }
}

/// Any cycle the search reports returns to its start, dependency-list
/// form.
proof fn lemma_dfs_cycle_shape_deps(
    m: Seq<EntryV>,
    deps: Seq<Seq<char>>,
    vis: Seq<Seq<char>>,
    stk: Seq<Seq<char>>,
    path: Seq<Seq<char>>,
    fuel: nat,
)
    ensures
        ({
            let t = dfs_deps(m, deps, vis, stk, path, fuel);
            t.3 matches Some(c) ==> c.len() >= 1 && c[0] == c.last()
        }),
    decreases fuel, deps.len() + 1,
{
    if deps.len() > 0 {
        let d = deps[0];
        if !vis.contains(d) {
            lemma_dfs_cycle_shape_node(m, d, vis, stk, path, fuel);
            let stepped = dfs_node(m, d, vis, stk, path, fuel);
            if stepped.3 is None {
                lemma_dfs_cycle_shape_deps(
                    m,
                    deps.drop_first(),
                    stepped.0,
                    stepped.1,
                    stepped.2,
                    fuel,
                );
            }
        } else if stk.contains(d) {
            lemma_cycle_from_endpoints(path, d);
        } else {
            lemma_dfs_cycle_shape_deps(m, deps.drop_first(), vis, stk, path, fuel);
        }
    }
}

/// Every finding of the cycle pass shows a path that returns to its
/// start: the repeated name stands at both ends of the reported cycle.
pub proof fn lemma_cycle_findings_return_to_start(
    m: Seq<EntryV>,
    roots: Seq<EntryV>,
    vis: Seq<Seq<char>>,
    stk: Seq<Seq<char>>,
    fuel: nat,
)
    ensures
        forall|i: int|
            0 <= i < cycle_check(m, roots, vis, stk, fuel).2.len() ==> is_cycle_shaped(
                #[trigger] cycle_check(m, roots, vis, stk, fuel).2[i],
            ),
    decreases roots,
{
    if roots.len() > 0 {
        let key = roots[0].0;
        if vis.contains(key) {
            lemma_cycle_findings_return_to_start(m, roots.drop_first(), vis, stk, fuel);
            let rest = cycle_check(m, roots.drop_first(), vis, stk, fuel);
            let all = cycle_check(m, roots, vis, stk, fuel).2;
            assert(all == rest.2);
            assert forall|i: int| 0 <= i < all.len() implies is_cycle_shaped(
                #[trigger] all[i],
            ) by {
                assert(all[i] == rest.2[i]);
                assert(is_cycle_shaped(rest.2[i]));
            }
        } else {
            let stepped = dfs_node(m, key, vis, stk, Seq::empty(), fuel);
            lemma_cycle_findings_return_to_start(m, roots.drop_first(), stepped.0, stepped.1, fuel);
            lemma_dfs_cycle_shape_node(m, key, vis, stk, Seq::empty(), fuel);
            let rest = cycle_check(m, roots.drop_first(), stepped.0, stepped.1, fuel);
            let all = cycle_check(m, roots, vis, stk, fuel).2;
            match stepped.3 {
                Some(c) => {
                    assert(all == seq![cycle_error(c)] + rest.2);
                    assert(all[0] == cycle_error(c));
                    assert(is_cycle_shaped(all[0]));
                    assert forall|i: int| 0 <= i < all.len() implies is_cycle_shaped(
                        #[trigger] all[i],
                    ) by {
                        if i >= 1 {
                            assert(all[i] == rest.2[i - 1]);
                            assert(is_cycle_shaped(rest.2[i - 1]));
                        }
                    }
                }
                None => {
                    assert(all == rest.2);
                    assert forall|i: int| 0 <= i < all.len() implies is_cycle_shaped(
                        #[trigger] all[i],
                    ) by {
                        assert(all[i] == rest.2[i]);
                        assert(is_cycle_shaped(rest.2[i]));
                    }
                }
            }
        }
    }
}

} // verus!
