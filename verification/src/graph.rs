//! The typed graph wrapper: one generic container over the three
//! notations' node types, with a phantom notation marker and a phantom
//! validation state, so that only validated structured graphs reach the
//! execution-graph builder.

use vstd::prelude::*;

verus! {

use core::marker::PhantomData;

use crate::error::{Error, ValidationError, errors_view};
use crate::fk;
use crate::flow;
use crate::ir;
use crate::par;
use crate::validate;

/// Marker: the structured notation.
pub struct Ir;

/// Marker: the Par notation.
pub struct Par;

/// Marker: the Fork-Join notation.
pub struct ForkJoin;

/// Marker: the graph passed validation.
pub struct Valid;

/// Marker: the graph was not validated yet.
pub struct Unvalidated;

/// A graph in one notation, tagged with its validation state.
pub struct Graph<N, K, S = Unvalidated>(pub Vec<N>, pub PhantomData<K>, pub PhantomData<S>);

impl<N, K, S> Graph<N, K, S> {
    pub fn new(nodes: Vec<N>) -> (r: Self)
        ensures
            r.0 == nodes,
    {
        Self(nodes, PhantomData, PhantomData)
    }

    /// The nodes of this graph.
    pub fn nodes(&self) -> (r: &Vec<N>)
        ensures
            r == &self.0,
    {
        &self.0
    }
}

impl<S> Graph<ir::Node, Ir, S> {
    /// Parses the canonical structured notation.
    pub fn parse(input: &str) -> (r: Result<Self, Error>)
        ensures
            r matches Ok(g) ==> ir::wf_nodes(ir::nodes_view(g.0@)),
            r matches Err(e) ==> e is ParseError,
    {
        match ir::parse(input) {
            Ok(g) => Ok(Graph::new(g.0)),
            Err(e) => Err(e),
        }
    }

    /// Lowers to Fork-Join code, preserving the multiset of atomic-task
    /// names exactly; dependency annotations and terminal markers are
    /// dropped.
    pub fn to_fk(self) -> (r: Graph<fk::Stmt, ForkJoin, S>)
        ensures
            fk::stmts_atoms(fk::stmts_view(r.0@)) == ir::nodes_atoms(ir::nodes_view(self.0@)),
            fk::stmts_view(r.0@) == crate::lower::lower_spec(ir::nodes_view(self.0@)),
    {
        let ir_graph = ir::Graph::new(self.0);
        let out = ir_graph.to_fk();
        Graph::new(out.0)
    }

    /// Maps into the Par notation, failing with a conversion error
    /// exactly when a dependency annotation or terminal marker is met.
    pub fn to_par(self) -> (r: Result<Graph<par::Node, Par, S>, Error>)
        ensures
            r is Ok <==> par::all_representable(ir::nodes_view(self.0@)),
            r matches Ok(g) ==> par::nodes_view(g.0@) == par::of_ir_nodes(
                ir::nodes_view(self.0@),
            ),
            r matches Err(e) ==> e is ConversionError,
    {
        let ir_graph = ir::Graph::new(self.0);
        match ir_graph.to_par() {
            Ok(p) => Ok(Graph::new(p.0)),
            Err(e) => Err(e),
        }
    }

    /// The canonical text of this graph.
    pub fn to_text(&self) -> (r: String)
        ensures
            r@ == ir::graph_text(ir::nodes_view(self.0@)),
    {
        let t = crate::ir::format_nodes(&self.0);
        let mut s = String::from_str("$");
        proof {
            reveal_strlit("$");
            assert("$"@ =~= seq!['$']);
        }
        s.append(t.as_str());
        s.append("$");
        proof {
            assert(s@ =~= ir::graph_text(ir::nodes_view(self.0@)));
        }
        s
    }
}

impl Graph<ir::Node, Ir, Unvalidated> {
    /// Validates the graph: missing-dependency findings first, then one
    /// finding per dependency cycle the search meets; succeeds exactly
    /// when there is no finding, handing back the same nodes as a
    /// validated graph.
    pub fn validate(self) -> (r: Result<Graph<ir::Node, Ir, Valid>, Vec<ValidationError>>)
        ensures
            r is Ok <==> validate::validation_errors(ir::nodes_view(self.0@)).len() == 0,
            r matches Ok(g) ==> g.0 == self.0,
            r matches Err(es) ==> errors_view(es@) == validate::validation_errors(
                ir::nodes_view(self.0@),
            ),
    {
        let g = ir::Graph::new(self.0);
        match validate::validate(&g) {
            Ok(()) => Ok(Graph::new(g.0)),
            Err(es) => Err(es),
        }
    }
}

impl Graph<ir::Node, Ir, Valid> {
    /// Builds the execution graph handed to rendering.
    pub fn to_execution_graph(&self) -> (r: flow::ExecutionGraph)
        ensures
            r.nodes.deep_view() == flow::execution_graph_of(ir::nodes_view(self.0@)).0,
            r.edges@ == flow::execution_graph_of(ir::nodes_view(self.0@)).1,
    {
        flow::build_execution_graph(&self.0)
    }
}

impl<S> Graph<par::Node, Par, S> {
    /// Parses the Par notation.
    pub fn parse(input: &str) -> (r: Result<Self, Error>)
        ensures
            r matches Err(e) ==> e is ParseError,
    {
        match par::parse(input) {
            Ok(g) => Ok(Graph::new(g.0)),
            Err(e) => Err(e),
        }
    }

    /// Maps into the structured notation; always lossless.
    pub fn to_ir(self) -> (r: Graph<ir::Node, Ir, S>)
        ensures
            ir::nodes_view(r.0@) == par::to_ir_nodes(par::nodes_view(self.0@)),
    {
        let par_graph = par::Graph::new(self.0);
        let out = par_graph.to_ir();
        Graph::new(out.0)
    }

    /// The indented text of this graph.
    pub fn to_text(&self) -> (r: String)
        ensures
            r@ == par::graph_text(par::nodes_view(self.0@)),
    {
        let g = par::Graph(clone_par_nodes(&self.0));
        g.to_text()
    }
}

/// Copies a Par node list.
#[verifier::loop_isolation(false)]
fn clone_par_nodes(nodes: &Vec<par::Node>) -> (r: Vec<par::Node>)
    ensures
        par::nodes_view(r@) == par::nodes_view(nodes@),
{
    broadcast use par::group_par_view;

    let mut out: Vec<par::Node> = Vec::new();
    let mut i: usize = 0;
    while i < nodes.len()
        invariant
            i <= nodes.len(),
            out@.len() == i,
            forall|j: int| 0 <= j < i ==> out@[j]@ == nodes@[j]@,
        decreases nodes.len() - i,
    {
        let c = clone_par_node(&nodes[i]);
        out.push(c);
        i += 1;
    }
    proof {
        assert forall|k: int|
            0 <= k < out@.len() implies #[trigger] par::nodes_view(out@)[k] == par::nodes_view(
            nodes@,
        )[k] by {}
        assert(par::nodes_view(out@) =~= par::nodes_view(nodes@));
    }
    out
}

/// Copies one Par node.
#[verifier::loop_isolation(false)]
fn clone_par_node(node: &par::Node) -> (r: par::Node)
    ensures
        r@ == node@,
    decreases node,
{
    broadcast use par::group_par_view;

    match node {
        par::Node::Atomic(name) => par::Node::Atomic(name.clone()),
        par::Node::Par(children) => {
            let mut out: Vec<par::Node> = Vec::new();
            let mut i: usize = 0;
            while i < children.len()
                invariant
                    i <= children.len(),
                    out@.len() == i,
                    forall|j: int| 0 <= j < i ==> out@[j]@ == children@[j]@,
                decreases children.len() - i,
            {
                proof {
                    assert(decreases_to!(*node => node->Par_0));
                    assert(decreases_to!(node->Par_0 => node->Par_0[i as int]));
                }
                let c = clone_par_node(&children[i]);
                out.push(c);
                i += 1;
            }
            proof {
                assert forall|k: int|
                    0 <= k < out@.len() implies #[trigger] par::nodes_view(out@)[k]
                    == par::nodes_view(children@)[k] by {}
                assert(par::nodes_view(out@) =~= par::nodes_view(children@));
            }
            par::Node::Par(out)
        }
        par::Node::Sequence(children) => {
            let mut out: Vec<par::Node> = Vec::new();
            let mut i: usize = 0;
            while i < children.len()
                invariant
                    i <= children.len(),
                    out@.len() == i,
                    forall|j: int| 0 <= j < i ==> out@[j]@ == children@[j]@,
                decreases children.len() - i,
            {
                proof {
                    assert(decreases_to!(*node => node->Sequence_0));
                    assert(decreases_to!(node->Sequence_0 => node->Sequence_0[i as int]));
                }
                let c = clone_par_node(&children[i]);
                out.push(c);
                i += 1;
            }
            proof {
                assert forall|k: int|
                    0 <= k < out@.len() implies #[trigger] par::nodes_view(out@)[k]
                    == par::nodes_view(children@)[k] by {}
                assert(par::nodes_view(out@) =~= par::nodes_view(children@));
            }
            par::Node::Sequence(out)
        }
    }
}

impl<S> Graph<fk::Stmt, ForkJoin, S> {
    /// Parses the Fork-Join notation.
    pub fn parse(input: &str) -> (r: Result<Self, Error>)
        ensures
            r matches Err(e) ==> e is ParseError,
    {
        match fk::parse(input) {
            Ok(g) => Ok(Graph::new(g.0)),
            Err(e) => Err(e),
        }
    }

    /// Recovers the structured form of this program.
    pub fn to_ir(self) -> (r: Graph<ir::Node, Ir, S>)
        ensures
            par::all_representable(ir::nodes_view(r.0@)),
            ir::nodes_names(ir::nodes_view(r.0@)).subset_of(
                crate::cfg::node_name_set(crate::cfg::stmts_nodes(fk::stmts_view(self.0@))),
            ),
            ir::nodes_view(r.0@) == crate::cfg::structure_spec(
                crate::cfg::stmts_nodes(fk::stmts_view(self.0@)),
                crate::cfg::labels_of(fk::stmts_view(self.0@)),
            ),
    {
        let ghost sv = fk::stmts_view(self.0@);
        let fk_graph = fk::Graph::new(self.0);
        proof {
            assert(fk_graph@ == sv);
        }
        let out = fk_graph.to_ir();
        proof {
            assert(crate::cfg::stmts_nodes(fk_graph@) == crate::cfg::stmts_nodes(sv));
            assert(crate::cfg::labels_of(fk_graph@) == crate::cfg::labels_of(sv));
            assert(out@ == crate::cfg::structure_spec(
                crate::cfg::stmts_nodes(sv),
                crate::cfg::labels_of(sv),
            ));
        }
        Graph::new(out.0)
    }

    /// The indented text of this program.
    pub fn to_text(&self) -> (r: String)
        ensures
            r@ == fk::graph_text(fk::stmts_view(self.0@)),
    {
        let mut stmts: Vec<fk::Stmt> = Vec::new();
        let mut i: usize = 0;
        while i < self.0.len()
            invariant
                i <= self.0.len(),
                stmts@.len() == i,
                forall|j: int| 0 <= j < i ==> stmts@[j]@ == self.0@[j]@,
            decreases self.0.len() - i,
        {
            let st = &self.0[i];
            let label = match &st.label {
                Some(l) => Some(l.clone()),
                None => None,
            };
            stmts.push(fk::Stmt { label, node: fk::clone_node(&st.node) });
            i += 1;
        }
        let g = fk::Graph::new(stmts);
        proof {
            broadcast use fk::group_stmts_view;

            assert forall|k: int|
                0 <= k < g.0@.len() implies #[trigger] fk::stmts_view(g.0@)[k] == fk::stmts_view(
                self.0@,
            )[k] by {}
            assert(fk::stmts_view(g.0@) =~= fk::stmts_view(self.0@));
        }
        g.to_text()
    }
}

} // verus!
