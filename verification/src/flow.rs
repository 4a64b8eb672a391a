//! The execution graph handed to rendering: one node per distinct
//! atomic-task name, structural edges following the nesting, and one
//! labeled edge per declared dependency.
//!
//! Structural edges thread a set of current predecessors through the
//! tree: an atomic draws an edge from each predecessor and becomes the
//! sole predecessor unless it is terminal; a sequence threads the set
//! through its children in order; a parallel block hands the same set to
//! every branch and takes the union of their outcomes.

use vstd::prelude::*;

verus! {

use crate::ir;
use crate::ir::NodeV;
use crate::validate::first_index_of;

/// Whether an edge follows the structure or a declared dependency.
#[derive(Debug, Clone, Copy, PartialEq, Eq, Structural)]
pub enum EdgeKind {
    Control,
    Dep,
}

/// One edge: source node index, target node index, kind.
pub type Edge = (usize, usize, EdgeKind);

/// The build state: interned node names, edges so far, and the current
/// predecessor indices.
pub type BuildV = (Seq<Seq<char>>, Seq<Edge>, Seq<usize>);

/// One structural edge from every predecessor to a target.
pub open spec fn prev_edges(prev: Seq<usize>, to: usize) -> Seq<Edge>
    decreases prev,
{
    if prev.len() == 0 {
        Seq::empty()
    } else {
        prev_edges(prev.drop_last(), to).push((prev.last(), to, EdgeKind::Control))
    }
}

/// The index a name is interned at: its first occurrence, or the end
/// where it is new.
pub open spec fn intern_index(nodes: Seq<Seq<char>>, name: Seq<char>) -> usize {
    if nodes.contains(name) {
        first_index_of(nodes, name) as usize
    } else {
        nodes.len() as usize
    }
}

pub open spec fn intern_nodes(nodes: Seq<Seq<char>>, name: Seq<char>) -> Seq<Seq<char>> {
    if nodes.contains(name) {
        nodes
    } else {
        nodes.push(name)
    }
}

/// The structural pass over one node.
pub open spec fn walk_node(n: NodeV, st: BuildV) -> BuildV
    decreases n,
{
    match n {
        NodeV::Atomic(name, _, terminal) => {
            let idx = intern_index(st.0, name);
            (
                intern_nodes(st.0, name),
                st.1 + prev_edges(st.2, idx),
                if terminal {
                    Seq::empty()
                } else {
                    seq![idx]
                },
            )
        }
        NodeV::Sequence(children) => walk_list(children, st),
        NodeV::Par(branches) => {
            let out = walk_branches(branches, (st.0, st.1, Seq::empty()), st.2);
            out
        }
        NodeV::Dep(_) => st,
    }
}

/// The structural pass over a node list, threading the state in order.
pub open spec fn walk_list(s: Seq<NodeV>, st: BuildV) -> BuildV
    decreases s,
{
    if s.len() == 0 {
        st
    } else {
        walk_node(s.last(), walk_list(s.drop_last(), st))
    }
}

/// The structural pass over parallel branches: each starts from the same
/// incoming predecessors, and the outgoing sets concatenate.  A branch
/// that is a bare dependency name contributes no successors.
pub open spec fn walk_branches(s: Seq<NodeV>, st: BuildV, prev_in: Seq<usize>) -> BuildV
    decreases s,
{
    if s.len() == 0 {
        st
    } else {
        let st1 = walk_branches(s.drop_last(), st, prev_in);
        let out = walk_node(s.last(), (st1.0, st1.1, prev_in));
        let handed_on: Seq<usize> = match s.last() {
            NodeV::Dep(_) => Seq::empty(),
            _ => out.2,
        };
        (out.0, out.1, st1.2 + handed_on)
    }
}

/// One dependency edge per declared dependency that resolves, in order.
pub open spec fn dep_edges_of(
    deps: Seq<Seq<char>>,
    target: usize,
    nodes: Seq<Seq<char>>,
) -> Seq<Edge>
    decreases deps,
{
    if deps.len() == 0 {
        Seq::empty()
    } else {
        dep_edges_of(deps.drop_last(), target, nodes) + (if nodes.contains(deps.last()) {
            seq![((first_index_of(nodes, deps.last()) as usize), target, EdgeKind::Dep)]
        } else {
            Seq::empty()
        })
    }
}

/// The dependency pass over one node.
pub open spec fn dep_pass_node(n: NodeV, nodes: Seq<Seq<char>>, edges: Seq<Edge>) -> Seq<Edge>
    decreases n,
{
    match n {
        NodeV::Atomic(name, deps, _) => if nodes.contains(name) {
            edges + dep_edges_of(
                ir::dep_names(deps),
                first_index_of(nodes, name) as usize,
                nodes,
            )
        } else {
            edges
        },
        NodeV::Sequence(children) => dep_pass_list(children, nodes, edges),
        NodeV::Par(branches) => dep_pass_list(branches, nodes, edges),
        NodeV::Dep(_) => edges,
    }
}

/// The dependency pass over a node list.
pub open spec fn dep_pass_list(s: Seq<NodeV>, nodes: Seq<Seq<char>>, edges: Seq<Edge>) -> Seq<
    Edge,
>
    decreases s,
{
    if s.len() == 0 {
        edges
    } else {
        dep_pass_node(s.last(), nodes, dep_pass_list(s.drop_last(), nodes, edges))
    }
}

/// What the whole builder produces for a graph.
pub open spec fn execution_graph_of(g: Seq<NodeV>) -> (Seq<Seq<char>>, Seq<Edge>) {
    let st = walk_list(g, (Seq::empty(), Seq::empty(), Seq::empty()));
    (st.0, dep_pass_list(g, st.0, st.1))
}

/// The flat execution graph: node labels and edges by node index.
#[derive(Debug)]
pub struct ExecutionGraph {
    pub nodes: Vec<String>,
    pub edges: Vec<Edge>,
}

/// Finds a name among the interned nodes.
#[verifier::loop_isolation(false)]
fn find_name(nodes: &Vec<String>, name: &String) -> (r: Option<usize>)
    ensures
        r matches Some(i) ==> nodes.deep_view().contains(name@) && i == first_index_of(
            nodes.deep_view(),
            name@,
        ),
        r is None ==> !nodes.deep_view().contains(name@),
{
    let ghost nv = nodes.deep_view();
    proof {
        crate::validate::lemma_first_index_of(nv, name@);
    }
    let mut i: usize = 0;
    while i < nodes.len()
        invariant
            i <= nodes.len(),
            forall|j: int| 0 <= j < i ==> nv[j] != name@,
        decreases nodes.len() - i,
    {
        if crate::text::str_eq(nodes[i].as_str(), name.as_str()) {
            proof {
                assert(nv[i as int] == name@);
                assert(nv.contains(name@));
                if first_index_of(nv, name@) < i {
                    assert(nv[first_index_of(nv, name@)] == name@);
                }
            }
            return Some(i);
        }
        i += 1;
    }
    proof {
        if nv.contains(name@) {
            let w = choose|w: int| 0 <= w < nv.len() && nv[w] == name@;
            assert(nv[w] != name@);
        }
    }
    None
}

/// Interns a name: the first occurrence wins, a new name is appended.
#[verifier::loop_isolation(false)]
fn intern(nodes: &mut Vec<String>, name: &String) -> (idx: usize)
    ensures
        final(nodes).deep_view() == intern_nodes(old(nodes).deep_view(), name@),
        idx == intern_index(old(nodes).deep_view(), name@),
{
    let ghost nv = nodes.deep_view();
    match find_name(nodes, name) {
        Some(i) => i,
        None => {
            let i = nodes.len();
            nodes.push(name.clone());
            proof {
                assert(nodes.deep_view() =~= nv.push(name@));
            }
            i
        }
    }
}

/// Draws one structural edge from every predecessor to a target.
#[verifier::loop_isolation(false)]
fn push_prev_edges(edges: &mut Vec<Edge>, prev: &Vec<usize>, to: usize)
    ensures
        final(edges)@ == old(edges)@ + prev_edges(prev@, to),
{
    let ghost pv = prev@;
    let ghost e0 = edges@;
    let mut j: usize = 0;
    while j < prev.len()
        invariant
            j <= prev.len(),
            edges@ == e0 + prev_edges(pv.take(j as int), to),
        decreases prev.len() - j,
    {
        proof {
            assert(pv.take(j + 1).drop_last() =~= pv.take(j as int));
            assert(pv.take(j + 1).last() == pv[j as int]);
        }
        edges.push((prev[j], to, EdgeKind::Control));
        proof {
            assert(edges@ =~= e0 + prev_edges(pv.take(j + 1), to));
        }
        j += 1;
    }
    proof {
        assert(pv.take(pv.len() as int) =~= pv);
    }
}

/// Copies a predecessor list.
fn clone_prev(prev: &Vec<usize>) -> (r: Vec<usize>)
    ensures
        r@ == prev@,
{
    let mut r: Vec<usize> = Vec::new();
    let mut i: usize = 0;
    while i < prev.len()
        invariant
            i <= prev.len(),
            r@ =~= prev@.take(i as int),
        decreases prev.len() - i,
    {
        r.push(prev[i]);
        proof {
            assert(r@ =~= prev@.take(i + 1));
        }
        i += 1;
    }
    proof {
        assert(prev@.take(prev@.len() as int) =~= prev@);
    }
    r
}

/// The structural pass over one node; returns the outgoing predecessors.
#[verifier::loop_isolation(false)]
#[verifier::rlimit(60)]
fn walk_node_exec(
    n: &ir::Node,
    nodes: &mut Vec<String>,
    edges: &mut Vec<Edge>,
    prev: Vec<usize>,
) -> (out: Vec<usize>)
    ensures
        ({
            let st = walk_node(n@, (old(nodes).deep_view(), old(edges)@, prev@));
            &&& final(nodes).deep_view() == st.0
            &&& final(edges)@ == st.1
            &&& out@ == st.2
        }),
    decreases n,
{
    broadcast use ir::group_nodes_view;

    match n {
        ir::Node::Atomic(name, _, terminal) => {
            let idx = intern(nodes, name);
            push_prev_edges(edges, &prev, idx);
            if *terminal {
                Vec::new()
            } else {
                let mut out: Vec<usize> = Vec::new();
                out.push(idx);
                proof {
                    assert(out@ =~= seq![intern_index(old(nodes).deep_view(), name@)]);
                }
                out
            }
        }
        ir::Node::Sequence(children) => {
            proof {
                assert(decreases_to!(*n => n->Sequence_0));
            }
            walk_list_exec(children, nodes, edges, prev)
        }
        ir::Node::Par(branches) => {
            let ghost bv = ir::nodes_view(branches@);
            let ghost st0 = (nodes.deep_view(), edges@, Seq::<usize>::empty());
            let ghost prev_v = prev@;
            proof {
                assert(ir::nodes_view(branches@).len() == branches@.len());
            }
            let mut all_last: Vec<usize> = Vec::new();
            let mut i: usize = 0;
            while i < branches.len()
                invariant
                    i <= branches.len(),
                    ({
                        let st = walk_branches(bv.take(i as int), st0, prev_v);
                        &&& nodes.deep_view() == st.0
                        &&& edges@ == st.1
                        &&& all_last@ == st.2
                    }),
                decreases branches.len() - i,
            {
                proof {
                    assert(bv.take(i + 1).drop_last() =~= bv.take(i as int));
                    assert(bv.take(i + 1).last() == bv[i as int]);
                    assert(ir::nodes_view(branches@)[i as int] == ir::node_view(
                        branches@[i as int],
                    ));
                    assert(decreases_to!(*n => n->Par_0));
                    assert(decreases_to!(n->Par_0 => n->Par_0[i as int]));
                }
                let branch_prev = clone_prev(&prev);
                let mut out_b = walk_node_exec(&branches[i], nodes, edges, branch_prev);
                let is_dep = matches!(&branches[i], ir::Node::Dep(_));
                if !is_dep {
                    let ghost al0 = all_last@;
                    let ghost ob = out_b@;
                    all_last.append(&mut out_b);
                    proof {
                        assert(all_last@ == al0 + ob);
                    }
                } else {
                    proof {
                        assert(all_last@ =~= all_last@ + Seq::<usize>::empty());
                    }
                }
                i += 1;
            }
            proof {
                assert(bv.take(branches@.len() as int) =~= bv);
            }
            all_last
        }
        ir::Node::Dep(_) => prev,
    }
}

/// The structural pass over a node list, threading predecessors through.
#[verifier::loop_isolation(false)]
fn walk_list_exec(
    list: &Vec<ir::Node>,
    nodes: &mut Vec<String>,
    edges: &mut Vec<Edge>,
    prev: Vec<usize>,
) -> (out: Vec<usize>)
    ensures
        ({
            let st = walk_list(ir::nodes_view(list@), (old(nodes).deep_view(), old(edges)@, prev@));
            &&& final(nodes).deep_view() == st.0
            &&& final(edges)@ == st.1
            &&& out@ == st.2
        }),
    decreases list,
{
    broadcast use ir::group_nodes_view;

    let ghost lv = ir::nodes_view(list@);
    let ghost st0 = (nodes.deep_view(), edges@, prev@);
    let mut cur = prev;
    let mut i: usize = 0;
    while i < list.len()
        invariant
            i <= list.len(),
            ({
                let st = walk_list(lv.take(i as int), st0);
                &&& nodes.deep_view() == st.0
                &&& edges@ == st.1
                &&& cur@ == st.2
            }),
        decreases list.len() - i,
    {
        proof {
            assert(lv.take(i + 1).drop_last() =~= lv.take(i as int));
            assert(lv.take(i + 1).last() == lv[i as int]);
            assert(ir::nodes_view(list@)[i as int] == ir::node_view(list@[i as int]));
            assert(decreases_to!(*list => list[i as int]));
        }
        cur = walk_node_exec(&list[i], nodes, edges, cur);
        i += 1;
    }
    proof {
        assert(lv.take(list@.len() as int) =~= lv);
    }
    cur
}

/// The dependency pass over one node.
#[verifier::loop_isolation(false)]
#[verifier::rlimit(60)]
fn dep_pass_node_exec(n: &ir::Node, nodes: &Vec<String>, edges: &mut Vec<Edge>)
    ensures
        final(edges)@ == dep_pass_node(n@, nodes.deep_view(), old(edges)@),
    decreases n,
{
    broadcast use ir::group_nodes_view;

    match n {
        ir::Node::Atomic(name, deps, _) => {
            match find_name(nodes, name) {
                Some(target) => {
                    let ghost dv = ir::nodes_view(deps@);
                    let ghost names = ir::dep_names(dv);
                    let ghost e0 = edges@;
                    let mut j: usize = 0;
                    while j < deps.len()
                        invariant
                            j <= deps.len(),
                            edges@ == e0 + dep_edges_of(
                                ir::dep_names(dv.take(j as int)),
                                target,
                                nodes.deep_view(),
                            ),
                        decreases deps.len() - j,
                    {
                        proof {
                            assert(dv.take(j + 1).drop_last() =~= dv.take(j as int));
                            assert(dv.take(j + 1).last() == dv[j as int]);
                            assert(ir::nodes_view(deps@)[j as int] == ir::node_view(
                                deps@[j as int],
                            ));
                        }
                        match &deps[j] {
                            ir::Node::Dep(dep_id) => {
                                let ghost dn0 = ir::dep_names(dv.take(j as int));
                                proof {
                                    assert(ir::dep_names(dv.take(j + 1)) =~= dn0.push(dep_id@));
                                    assert(dn0.push(dep_id@).drop_last() =~= dn0);
                                }
                                match find_name(nodes, dep_id) {
                                    Some(src) => {
                                        edges.push((src, target, EdgeKind::Dep));
                                    }
                                    None => {}
                                }
                                proof {
                                    assert(edges@ =~= e0 + dep_edges_of(
                                        ir::dep_names(dv.take(j + 1)),
                                        target,
                                        nodes.deep_view(),
                                    ));
                                }
                            }
                            _ => {
                                proof {
                                    assert(ir::dep_names(dv.take(j + 1)) =~= ir::dep_names(
                                        dv.take(j as int),
                                    ));
                                }
                            }
                        }
                        j += 1;
                    }
                    proof {
                        assert(dv.take(dv.len() as int) =~= dv);
                        assert(ir::nodes_view(deps@).len() == deps@.len());
                    }
                }
                None => {}
            }
        }
        ir::Node::Sequence(children) => {
            proof {
                assert(decreases_to!(*n => n->Sequence_0));
            }
            dep_pass_list_exec(children, nodes, edges);
        }
        ir::Node::Par(branches) => {
            proof {
                assert(decreases_to!(*n => n->Par_0));
            }
            dep_pass_list_exec(branches, nodes, edges);
        }
        ir::Node::Dep(_) => {}
    }
}

/// The dependency pass over a node list.
#[verifier::loop_isolation(false)]
fn dep_pass_list_exec(list: &Vec<ir::Node>, nodes: &Vec<String>, edges: &mut Vec<Edge>)
    ensures
        final(edges)@ == dep_pass_list(ir::nodes_view(list@), nodes.deep_view(), old(edges)@),
    decreases list,
{
    broadcast use ir::group_nodes_view;

    let ghost lv = ir::nodes_view(list@);
    let ghost e0 = edges@;
    let mut i: usize = 0;
    while i < list.len()
        invariant
            i <= list.len(),
            edges@ == dep_pass_list(lv.take(i as int), nodes.deep_view(), e0),
        decreases list.len() - i,
    {
        proof {
            assert(lv.take(i + 1).drop_last() =~= lv.take(i as int));
            assert(lv.take(i + 1).last() == lv[i as int]);
            assert(ir::nodes_view(list@)[i as int] == ir::node_view(list@[i as int]));
            assert(decreases_to!(*list => list[i as int]));
        }
        dep_pass_node_exec(&list[i], nodes, edges);
        i += 1;
    }
    proof {
        assert(lv.take(list@.len() as int) =~= lv);
    }
}

/// Builds the execution graph of a structured graph: nodes in
/// first-encounter order, structural edges from the nesting, then one
/// labeled edge per declared dependency.
pub fn build_execution_graph(graph: &Vec<ir::Node>) -> (g: ExecutionGraph)
    ensures
        g.nodes.deep_view() == execution_graph_of(ir::nodes_view(graph@)).0,
        g.edges@ == execution_graph_of(ir::nodes_view(graph@)).1,
{
    let mut nodes: Vec<String> = Vec::new();
    let mut edges: Vec<Edge> = Vec::new();
    proof {
        assert(nodes.deep_view() =~= Seq::<Seq<char>>::empty());
    }
    let prev: Vec<usize> = Vec::new();
    walk_list_exec(graph, &mut nodes, &mut edges, prev);
    dep_pass_list_exec(graph, &nodes, &mut edges);
    ExecutionGraph { nodes, edges }
}

} // verus!
