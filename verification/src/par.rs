//! The block-structured Par notation and its mapping to and from the
//! structured notation.
//!
//! Par cannot express dependency annotations or terminal markers, so the
//! mapping from the structured notation fails loudly — with a
//! "cannot represent" error — the moment it meets either, instead of
//! silently dropping data.  The opposite direction is always lossless.

use vstd::prelude::*;

verus! {

use vstd::string::*;

use crate::error::Error;
use crate::ir;

/// Mathematical mirror of [`Node`].
#[verifier::ext_equal]
pub enum NodeV {
    Par(Seq<NodeV>),
    Sequence(Seq<NodeV>),
    Atomic(Seq<char>),
}

/// One node of the Par notation: a parallel block, a sequential block, or
/// a named atomic task.
#[derive(Debug)]
pub enum Node {
    Par(Vec<Node>),
    Sequence(Vec<Node>),
    Atomic(String),
}

pub open spec fn node_view(n: Node) -> NodeV
    decreases n,
{
    match n {
        Node::Par(v) => NodeV::Par(nodes_view(v@)),
        Node::Sequence(v) => NodeV::Sequence(nodes_view(v@)),
        Node::Atomic(name) => NodeV::Atomic(name@),
    }
}

pub open spec fn nodes_view(s: Seq<Node>) -> Seq<NodeV>
    decreases s,
{
    if s.len() == 0 {
        Seq::empty()
    } else {
        seq![node_view(s[0])] + nodes_view(s.drop_first())
    }
}

impl View for Node {
    type V = NodeV;

    open spec fn view(&self) -> NodeV {
        node_view(*self)
    }
}

pub broadcast proof fn lemma_nodes_view_len(s: Seq<Node>)
    ensures
        #[trigger] nodes_view(s).len() == s.len(),
    decreases s,
{
    if s.len() != 0 {
        lemma_nodes_view_len(s.drop_first());
    }
}

pub broadcast proof fn lemma_nodes_view_index(s: Seq<Node>, i: int)
    requires
        0 <= i < s.len(),
    ensures
        #[trigger] nodes_view(s)[i] == node_view(s[i]),
    decreases s,
{
    lemma_nodes_view_len(s);
    if i > 0 {
        lemma_nodes_view_index(s.drop_first(), i - 1);
    }
}

pub broadcast group group_par_view {
    lemma_nodes_view_len,
    lemma_nodes_view_index,
}

/// What one Par node becomes in the structured notation: the same shape,
/// with every atomic given an empty dependency list and no terminal mark.
pub open spec fn to_ir_node(n: NodeV) -> ir::NodeV
    decreases n,
{
    match n {
        NodeV::Par(s) => ir::NodeV::Par(to_ir_nodes(s)),
        NodeV::Sequence(s) => ir::NodeV::Sequence(to_ir_nodes(s)),
        NodeV::Atomic(name) => ir::NodeV::Atomic(name, Seq::empty(), false),
    }
}

pub open spec fn to_ir_nodes(s: Seq<NodeV>) -> Seq<ir::NodeV>
    decreases s,
{
    if s.len() == 0 {
        Seq::empty()
    } else {
        seq![to_ir_node(s[0])] + to_ir_nodes(s.drop_first())
    }
}

/// Whether a structured node can be written in the Par notation: no
/// dependency annotations, no terminal markers, no bare dependency nodes.
pub open spec fn representable(n: ir::NodeV) -> bool
    decreases n,
{
    match n {
        ir::NodeV::Par(s) => all_representable(s),
        ir::NodeV::Sequence(s) => all_representable(s),
        ir::NodeV::Atomic(_, deps, terminal) => deps.len() == 0 && !terminal,
        ir::NodeV::Dep(_) => false,
    }
}

pub open spec fn all_representable(s: Seq<ir::NodeV>) -> bool
    decreases s,
{
    s.len() == 0 || (representable(s[0]) && all_representable(s.drop_first()))
}

/// What a representable structured node becomes in the Par notation.
pub open spec fn of_ir_node(n: ir::NodeV) -> NodeV
    decreases n,
{
    match n {
        ir::NodeV::Par(s) => NodeV::Par(of_ir_nodes(s)),
        ir::NodeV::Sequence(s) => NodeV::Sequence(of_ir_nodes(s)),
        ir::NodeV::Atomic(name, _, _) => NodeV::Atomic(name),
        ir::NodeV::Dep(name) => NodeV::Atomic(name),
    }
}

pub open spec fn of_ir_nodes(s: Seq<ir::NodeV>) -> Seq<NodeV>
    decreases s,
{
    if s.len() == 0 {
        Seq::empty()
    } else {
        seq![of_ir_node(s[0])] + of_ir_nodes(s.drop_first())
    }
}

/// Every Par graph survives the trip into the structured notation and
/// back unchanged: the structured image is always representable, and
/// mapping it back gives the original node.
pub proof fn lemma_par_ir_round_trip(n: NodeV)
    ensures
        representable(to_ir_node(n)),
        of_ir_node(to_ir_node(n)) == n,
    decreases n,
{
    match n {
        NodeV::Par(s) => {
            lemma_par_ir_round_trip_list(s);
            assert(of_ir_node(to_ir_node(n)) =~= n);
        }
        NodeV::Sequence(s) => {
            lemma_par_ir_round_trip_list(s);
            assert(of_ir_node(to_ir_node(n)) =~= n);
        }
        NodeV::Atomic(_) => {}
    }
}

/// List form of [`lemma_par_ir_round_trip`].
pub proof fn lemma_par_ir_round_trip_list(s: Seq<NodeV>)
    ensures
        all_representable(to_ir_nodes(s)),
        of_ir_nodes(to_ir_nodes(s)) == s,
    decreases s,
{
    if s.len() == 0 {
        assert(of_ir_nodes(to_ir_nodes(s)) =~= s);
    } else {
        lemma_par_ir_round_trip(s[0]);
        lemma_par_ir_round_trip_list(s.drop_first());
        let t = to_ir_nodes(s);
        assert(t[0] == to_ir_node(s[0]));
        assert(t.drop_first() =~= to_ir_nodes(s.drop_first()));
        assert(of_ir_nodes(t) =~= s);
    }
}

/// A structured graph whose atomics all have empty dependency lists and
/// no terminal marker survives the trip into the Par notation and back
/// unchanged.
pub proof fn lemma_ir_par_round_trip(n: ir::NodeV)
    requires
        representable(n),
    ensures
        to_ir_node(of_ir_node(n)) == n,
    decreases n,
{
    match n {
        ir::NodeV::Par(s) => {
            lemma_ir_par_round_trip_list(s);
            assert(to_ir_node(of_ir_node(n)) =~= n);
        }
        ir::NodeV::Sequence(s) => {
            lemma_ir_par_round_trip_list(s);
            assert(to_ir_node(of_ir_node(n)) =~= n);
        }
        ir::NodeV::Atomic(name, deps, terminal) => {
            assert(deps =~= Seq::<ir::NodeV>::empty());
        }
        ir::NodeV::Dep(_) => {}
    }
}

/// List form of [`lemma_ir_par_round_trip`].
pub proof fn lemma_ir_par_round_trip_list(s: Seq<ir::NodeV>)
    requires
        all_representable(s),
    ensures
        to_ir_nodes(of_ir_nodes(s)) == s,
    decreases s,
{
    if s.len() == 0 {
        assert(to_ir_nodes(of_ir_nodes(s)) =~= s);
    } else {
        lemma_ir_par_round_trip(s[0]);
        lemma_ir_par_round_trip_list(s.drop_first());
        let t = of_ir_nodes(s);
        assert(t[0] == of_ir_node(s[0]));
        assert(t.drop_first() =~= of_ir_nodes(s.drop_first()));
        assert(to_ir_nodes(of_ir_nodes(s)) =~= s);
    }
}

/// The message carried by a "cannot represent" conversion error.
pub open spec fn cannot_represent_msg() -> Seq<char> {
    "Par cannot represent dependencies"@
}

/// Maps one Par node into the structured notation.
#[verifier::loop_isolation(false)]
pub fn node_to_ir(node: &Node) -> (r: ir::Node)
    ensures
        r@ == to_ir_node(node@),
    decreases node,
{
    broadcast use group_par_view;
    broadcast use ir::group_nodes_view;

    match node {
        Node::Par(children) => {
            let mut out: Vec<ir::Node> = Vec::new();
            let mut i: usize = 0;
            while i < children.len()
                invariant
                    i <= children.len(),
                    out@.len() == i,
                    forall|j: int| 0 <= j < i ==> out@[j]@ == to_ir_node(children@[j]@),
                decreases children.len() - i,
            {
                proof {
                    assert(decreases_to!(*node => node->Par_0));
                    assert(decreases_to!(node->Par_0 => node->Par_0[i as int]));
                }
                let c = node_to_ir(&children[i]);
                out.push(c);
                i += 1;
            }
            proof {
                assert(ir::nodes_view(out@) =~= to_ir_nodes(nodes_view(children@))) by {
                    lemma_to_ir_nodes_pointwise(nodes_view(children@));
                }
            }
            ir::Node::Par(out)
        }
        Node::Sequence(children) => {
            let mut out: Vec<ir::Node> = Vec::new();
            let mut i: usize = 0;
            while i < children.len()
                invariant
                    i <= children.len(),
                    out@.len() == i,
                    forall|j: int| 0 <= j < i ==> out@[j]@ == to_ir_node(children@[j]@),
                decreases children.len() - i,
            {
                let c = node_to_ir(&children[i]);
                out.push(c);
                i += 1;
            }
            proof {
                assert(ir::nodes_view(out@) =~= to_ir_nodes(nodes_view(children@))) by {
                    lemma_to_ir_nodes_pointwise(nodes_view(children@));
                }
            }
            ir::Node::Sequence(out)
        }
        Node::Atomic(name) => ir::Node::Atomic(name.clone(), Vec::new(), false),
    }
}

/// The element-wise reading of [`to_ir_nodes`].
pub proof fn lemma_to_ir_nodes_pointwise(s: Seq<NodeV>)
    ensures
        to_ir_nodes(s).len() == s.len(),
        forall|i: int| 0 <= i < s.len() ==> #[trigger] to_ir_nodes(s)[i] == to_ir_node(s[i]),
    decreases s,
{
    if s.len() != 0 {
        lemma_to_ir_nodes_pointwise(s.drop_first());
        assert forall|i: int| 0 <= i < s.len() implies #[trigger] to_ir_nodes(s)[i]
            == to_ir_node(s[i]) by {
            if i > 0 {
                assert(to_ir_nodes(s)[i] == to_ir_nodes(s.drop_first())[i - 1]);
                assert(s.drop_first()[i - 1] == s[i]);
            }
        }
    }
}

/// The element-wise reading of [`of_ir_nodes`].
pub proof fn lemma_of_ir_nodes_pointwise(s: Seq<ir::NodeV>)
    ensures
        of_ir_nodes(s).len() == s.len(),
        forall|i: int| 0 <= i < s.len() ==> #[trigger] of_ir_nodes(s)[i] == of_ir_node(s[i]),
    decreases s,
{
    if s.len() != 0 {
        lemma_of_ir_nodes_pointwise(s.drop_first());
        assert forall|i: int| 0 <= i < s.len() implies #[trigger] of_ir_nodes(s)[i]
            == of_ir_node(s[i]) by {
            if i > 0 {
                assert(of_ir_nodes(s)[i] == of_ir_nodes(s.drop_first())[i - 1]);
                assert(s.drop_first()[i - 1] == s[i]);
            }
        }
    }
}

/// The element-wise reading of [`all_representable`].
pub proof fn lemma_all_representable_pointwise(s: Seq<ir::NodeV>)
    ensures
        all_representable(s) <==> (forall|i: int|
            0 <= i < s.len() ==> representable(#[trigger] s[i])),
    decreases s,
{
    if s.len() != 0 {
        lemma_all_representable_pointwise(s.drop_first());
        assert(forall|i: int| 1 <= i < s.len() ==> #[trigger] s[i] == s.drop_first()[i - 1]);
    }
}

/// Maps one structured node back into the Par notation, failing with a
/// conversion error exactly when the node carries a dependency list, a
/// terminal marker, or a bare dependency.
#[verifier::loop_isolation(false)]
pub fn ir_to_node(node: &ir::Node) -> (r: Result<Node, Error>)
    ensures
        r is Ok <==> representable(node@),
        r matches Ok(p) ==> p@ == of_ir_node(node@),
        r matches Err(e) ==> e matches Error::ConversionError(m) && m@ == cannot_represent_msg(),
    decreases node,
{
    broadcast use group_par_view;
    broadcast use ir::group_nodes_view;

    match node {
        ir::Node::Par(children) => {
            let mut out: Vec<Node> = Vec::new();
            let mut i: usize = 0;
            while i < children.len()
                invariant
                    i <= children.len(),
                    out@.len() == i,
                    forall|j: int| 0 <= j < i ==> representable(children@[j]@),
                    forall|j: int| 0 <= j < i ==> out@[j]@ == of_ir_node(children@[j]@),
                decreases children.len() - i,
            {
                match ir_to_node(&children[i]) {
                    Ok(c) => out.push(c),
                    Err(e) => {
                        proof {
                            lemma_all_representable_pointwise(ir::nodes_view(children@));
                            assert(ir::nodes_view(children@)[i as int] == children@[
                                i as int
                            ]@);
                            assert(!representable(ir::nodes_view(children@)[i as int]));
                        }
                        return Err(e);
                    }
                }
                i += 1;
            }
            proof {
                lemma_all_representable_pointwise(ir::nodes_view(children@));
                assert(nodes_view(out@) =~= of_ir_nodes(ir::nodes_view(children@))) by {
                    lemma_of_ir_nodes_pointwise(ir::nodes_view(children@));
                }
            }
            Ok(Node::Par(out))
        }
        ir::Node::Sequence(children) => {
            let mut out: Vec<Node> = Vec::new();
            let mut i: usize = 0;
            while i < children.len()
                invariant
                    i <= children.len(),
                    out@.len() == i,
                    forall|j: int| 0 <= j < i ==> representable(children@[j]@),
                    forall|j: int| 0 <= j < i ==> out@[j]@ == of_ir_node(children@[j]@),
                decreases children.len() - i,
            {
                match ir_to_node(&children[i]) {
                    Ok(c) => out.push(c),
                    Err(e) => {
                        proof {
                            lemma_all_representable_pointwise(ir::nodes_view(children@));
                            assert(ir::nodes_view(children@)[i as int] == children@[
                                i as int
                            ]@);
                            assert(!representable(ir::nodes_view(children@)[i as int]));
                        }
                        return Err(e);
                    }
                }
                i += 1;
            }
            proof {
                lemma_all_representable_pointwise(ir::nodes_view(children@));
                assert(nodes_view(out@) =~= of_ir_nodes(ir::nodes_view(children@))) by {
                    lemma_of_ir_nodes_pointwise(ir::nodes_view(children@));
                }
            }
            Ok(Node::Sequence(out))
        }
        ir::Node::Atomic(name, deps, terminal) => {
            if deps.len() == 0 && !*terminal {
                Ok(Node::Atomic(name.clone()))
            } else {
                Err(Error::ConversionError(cannot_represent_message()))
            }
        }
        ir::Node::Dep(_) => Err(Error::ConversionError(cannot_represent_message())),
    }
}

/// Builds the "cannot represent" message.
fn cannot_represent_message() -> (r: String)
    ensures
        r@ == cannot_represent_msg(),
{
    let r = String::from_str("Par cannot represent dependencies");
    proof {
        reveal_strlit("Par cannot represent dependencies");
    }
    r
}

/// The Par-notation graph: a list of top-level nodes.
#[derive(Debug)]
pub struct Graph(pub Vec<Node>);

impl View for Graph {
    type V = Seq<NodeV>;

    open spec fn view(&self) -> Seq<NodeV> {
        nodes_view(self.0@)
    }
}

impl Graph {
    pub fn new(nodes: Vec<Node>) -> (r: Self)
        ensures
            r.0 == nodes,
            r@ == nodes_view(nodes@),
    {
        Self(nodes)
    }

    /// Maps the whole graph into the structured notation.
    #[verifier::loop_isolation(false)]
    pub fn to_ir(&self) -> (r: ir::Graph)
        ensures
            r@ == to_ir_nodes(self@),
    {
        broadcast use group_par_view;
        broadcast use ir::group_nodes_view;

        let mut out: Vec<ir::Node> = Vec::new();
        let mut i: usize = 0;
        while i < self.0.len()
            invariant
                i <= self.0.len(),
                out@.len() == i,
                forall|j: int| 0 <= j < i ==> out@[j]@ == to_ir_node(self.0@[j]@),
            decreases self.0.len() - i,
        {
            let c = node_to_ir(&self.0[i]);
            out.push(c);
            i += 1;
        }
        proof {
            assert(ir::nodes_view(out@) =~= to_ir_nodes(nodes_view(self.0@))) by {
                lemma_to_ir_nodes_pointwise(nodes_view(self.0@));
            }
        }
        ir::Graph::new(out)
    }

    /// Maps a structured graph into the Par notation, failing with a
    /// conversion error exactly when any node cannot be represented.
    #[verifier::loop_isolation(false)]
    pub fn from_ir(ir_graph: &ir::Graph) -> (r: Result<Self, Error>)
        ensures
            r is Ok <==> all_representable(ir_graph@),
            r matches Ok(p) ==> p@ == of_ir_nodes(ir_graph@),
            r matches Err(e) ==> e matches Error::ConversionError(m) && m@
                == cannot_represent_msg(),
    {
        broadcast use group_par_view;
        broadcast use ir::group_nodes_view;

        let mut out: Vec<Node> = Vec::new();
        let mut i: usize = 0;
        while i < ir_graph.0.len()
            invariant
                i <= ir_graph.0.len(),
                out@.len() == i,
                forall|j: int| 0 <= j < i ==> representable(ir_graph.0@[j]@),
                forall|j: int| 0 <= j < i ==> out@[j]@ == of_ir_node(ir_graph.0@[j]@),
            decreases ir_graph.0.len() - i,
        {
            match ir_to_node(&ir_graph.0[i]) {
                Ok(c) => out.push(c),
                Err(e) => {
                    proof {
                        lemma_all_representable_pointwise(ir::nodes_view(ir_graph.0@));
                        assert(ir::nodes_view(ir_graph.0@)[i as int] == ir_graph.0@[
                            i as int
                        ]@);
                        assert(!representable(ir::nodes_view(ir_graph.0@)[i as int]));
                    }
                    return Err(e);
                }
            }
            i += 1;
        }
        proof {
            lemma_all_representable_pointwise(ir::nodes_view(ir_graph.0@));
            assert(nodes_view(out@) =~= of_ir_nodes(ir::nodes_view(ir_graph.0@))) by {
                lemma_of_ir_nodes_pointwise(ir::nodes_view(ir_graph.0@));
            }
        }
        Ok(Graph(out))
    }
}

/// Maps a Par graph into the structured notation.
pub fn to_ir(graph: &Graph) -> (r: ir::Graph)
    ensures
        r@ == to_ir_nodes(graph@),
{
    graph.to_ir()
}

/// Maps a structured graph into the Par notation; see [`Graph::from_ir`].
pub fn from_ir(graph: &ir::Graph) -> (r: Result<Graph, Error>)
    ensures
        r is Ok <==> all_representable(graph@),
        r matches Ok(p) ==> p@ == of_ir_nodes(graph@),
{
    Graph::from_ir(graph)
}


impl crate::ir::Graph {
    /// Maps this graph into the Par notation; see [`Graph::from_ir`].
    pub fn to_par(&self) -> (r: Result<Graph, Error>)
        ensures
            r is Ok <==> all_representable(self@),
            r matches Ok(p) ==> p@ == of_ir_nodes(self@),
            r matches Err(e) ==> e matches Error::ConversionError(m) && m@
                == cannot_represent_msg(),
    {
        Graph::from_ir(self)
    }
}


/// Two spaces per indentation level.
pub open spec fn pad(indent: nat) -> Seq<char>
    decreases indent,
{
    if indent == 0 {
        Seq::empty()
    } else {
        pad((indent - 1) as nat) + seq![' ', ' ']
    }
}

/// One level deeper, capped at the machine limit.
pub open spec fn next_indent(indent: nat) -> nat {
    if indent + 1 <= usize::MAX {
        indent + 1
    } else {
        indent
    }
}

/// The indented text of one Par node.
pub open spec fn par_node_text(n: NodeV, indent: nat) -> Seq<char>
    decreases n,
{
    match n {
        NodeV::Atomic(name) => pad(indent) + name + seq!['\n'],
        NodeV::Par(children) => pad(indent) + "parbegin"@ + seq!['\n'] + par_list_text(
            children,
            next_indent(indent),
        ) + pad(indent) + "parend"@ + seq!['\n'],
        NodeV::Sequence(children) => pad(indent) + "begin"@ + seq!['\n'] + par_list_text(
            children,
            next_indent(indent),
        ) + pad(indent) + "end"@ + seq!['\n'],
    }
}

/// The concatenated texts of a node list.
pub open spec fn par_list_text(s: Seq<NodeV>, indent: nat) -> Seq<char>
    decreases s,
{
    if s.len() == 0 {
        Seq::empty()
    } else {
        par_list_text(s.drop_last(), indent) + par_node_text(s.last(), indent)
    }
}

/// The text of a whole Par graph.
pub open spec fn graph_text(s: Seq<NodeV>) -> Seq<char> {
    "begin"@ + seq!['\n'] + par_list_text(s, 1) + "end"@
}

/// Writes the indentation for one level.
#[verifier::loop_isolation(false)]
fn write_pad(out: &mut String, indent: usize)
    ensures
        final(out)@ == old(out)@ + pad(indent as nat),
{
    let ghost base = out@;
    let mut i: usize = 0;
    while i < indent
        invariant
            i <= indent,
            out@ == base + pad(i as nat),
        decreases indent - i,
    {
        proof {
            reveal_strlit("  ");
            assert("  "@ =~= seq![' ', ' ']);
        }
        out.append("  ");
        proof {
            assert(out@ =~= base + pad((i + 1) as nat));
        }
        i += 1;
    }
}

/// Writes one Par node, indented, onto the output.
#[verifier::loop_isolation(false)]
#[verifier::rlimit(60)]
pub fn format_par_node(out: &mut String, node: &Node, indent: usize)
    ensures
        final(out)@ == old(out)@ + par_node_text(node@, indent as nat),
    decreases node,
{
    broadcast use group_par_view;

    proof {
        reveal_strlit("\n");
        assert("\n"@ =~= seq!['\n']);
    }
    match node {
        Node::Atomic(name) => {
            write_pad(out, indent);
            out.append(name.as_str());
            out.append("\n");
            proof {
                assert(out@ =~= old(out)@ + par_node_text(node@, indent as nat));
            }
        }
        Node::Par(children) => {
            write_pad(out, indent);
            out.append("parbegin");
            out.append("\n");
            let deeper: usize = if indent < usize::MAX {
                indent + 1
            } else {
                indent
            };
            let ghost cv = nodes_view(children@);
            let ghost base = out@;
            let mut i: usize = 0;
            while i < children.len()
                invariant
                    i <= children.len(),
                    deeper as nat == next_indent(indent as nat),
                    out@ == base + par_list_text(cv.take(i as int), next_indent(indent as nat)),
                decreases children.len() - i,
            {
                proof {
                    assert(cv.take(i + 1).drop_last() =~= cv.take(i as int));
                    assert(cv.take(i + 1).last() == cv[i as int]);
                    assert(nodes_view(children@)[i as int] == node_view(children@[i as int]));
                    assert(decreases_to!(*node => node->Par_0));
                    assert(decreases_to!(node->Par_0 => node->Par_0[i as int]));
                }
                format_par_node(out, &children[i], deeper);
                proof {
                    assert(out@ =~= base + par_list_text(cv.take(i + 1), next_indent(
                        indent as nat,
                    )));
                }
                i += 1;
            }
            proof {
                assert(cv.take(children@.len() as int) =~= cv);
            }
            write_pad(out, indent);
            out.append("parend");
            out.append("\n");
            proof {
                assert(out@ =~= old(out)@ + par_node_text(node@, indent as nat));
            }
        }
        Node::Sequence(children) => {
            write_pad(out, indent);
            out.append("begin");
            out.append("\n");
            let deeper: usize = if indent < usize::MAX {
                indent + 1
            } else {
                indent
            };
            let ghost cv = nodes_view(children@);
            let ghost base = out@;
            let mut i: usize = 0;
            while i < children.len()
                invariant
                    i <= children.len(),
                    deeper as nat == next_indent(indent as nat),
                    out@ == base + par_list_text(cv.take(i as int), next_indent(indent as nat)),
                decreases children.len() - i,
            {
                proof {
                    assert(cv.take(i + 1).drop_last() =~= cv.take(i as int));
                    assert(cv.take(i + 1).last() == cv[i as int]);
                    assert(nodes_view(children@)[i as int] == node_view(children@[i as int]));
                    assert(decreases_to!(*node => node->Sequence_0));
                    assert(decreases_to!(node->Sequence_0 => node->Sequence_0[i as int]));
                }
                format_par_node(out, &children[i], deeper);
                proof {
                    assert(out@ =~= base + par_list_text(cv.take(i + 1), next_indent(
                        indent as nat,
                    )));
                }
                i += 1;
            }
            proof {
                assert(cv.take(children@.len() as int) =~= cv);
            }
            write_pad(out, indent);
            out.append("end");
            out.append("\n");
            proof {
                assert(out@ =~= old(out)@ + par_node_text(node@, indent as nat));
            }
        }
    }
}

impl Graph {
    /// The indented text of this graph.
    #[verifier::loop_isolation(false)]
    pub fn to_text(&self) -> (r: String)
        ensures
            r@ == graph_text(self@),
    {
        proof {
            reveal_strlit("\n");
            assert("\n"@ =~= seq!['\n']);
        }
        let mut out = String::from_str("begin");
        out.append("\n");
        let ghost gv = self@;
        let ghost base = out@;
        let mut i: usize = 0;
        while i < self.0.len()
            invariant
                i <= self.0.len(),
                out@ == base + par_list_text(gv.take(i as int), 1),
            decreases self.0.len() - i,
        {
            proof {
                broadcast use group_par_view;

                assert(gv.take(i + 1).drop_last() =~= gv.take(i as int));
                assert(gv.take(i + 1).last() == gv[i as int]);
                assert(nodes_view(self.0@)[i as int] == node_view(self.0@[i as int]));
            }
            format_par_node(&mut out, &self.0[i], 1);
            proof {
                assert(out@ =~= base + par_list_text(gv.take(i + 1), 1));
            }
            i += 1;
        }
        proof {
            broadcast use group_par_view;

            assert(gv.take(self.0@.len() as int) =~= gv);
            assert(nodes_view(self.0@).len() == self.0@.len());
        }
        out.append("end");
        proof {
            assert(out@ =~= graph_text(self@));
        }
        out
    }
}


fn parse_error() -> (r: Error)
    ensures
        r is ParseError,
{
    Error::ParseError(String::from_str("Par: malformed input"))
}

/// Splits the input into identifier tokens.
#[verifier::loop_isolation(false)]
fn tokenize(input: &str) -> (r: Result<Vec<String>, Error>)
    ensures
        r matches Err(e) ==> e is ParseError,
{
    let len = input.unicode_len();
    let mut tokens: Vec<String> = Vec::new();
    let mut p: usize = 0;
    while p < len
        invariant
            p <= len,
            len == input@.len(),
        decreases len - p,
    {
        let q = crate::text::skip_ws(input, len, p);
        if q >= len {
            break;
        }
        let end = crate::text::scan_ident(input, len, q);
        if end == q {
            return Err(parse_error());
        }
        tokens.push(crate::text::ident_at(input, q, end));
        p = end;
    }
    Ok(tokens)
}

/// Parses the items of a parallel block up to its `parend`: identifiers
/// and nested `begin ... end` blocks.
fn parse_par_items(tokens: &Vec<String>, pos: usize, depth: usize) -> (r: Result<
    (Node, usize),
    Error,
>)
    requires
        pos <= tokens@.len(),
    ensures
        r matches Ok(np) ==> pos < np.1 <= tokens@.len(),
        r matches Err(e) ==> e is ParseError,
    decreases depth, 0int,
{
    let mut items: Vec<Node> = Vec::new();
    let mut p = pos;
    loop
        invariant
            pos <= p <= tokens@.len(),
        decreases tokens@.len() - p,
    {
        if p >= tokens.len() {
            return Err(parse_error());
        }
        let t = &tokens[p];
        if crate::text::str_eq(t.as_str(), "parend") {
            return Ok((Node::Par(items), p + 1));
        } else if crate::text::str_eq(t.as_str(), "begin") {
            if depth == 0 {
                return Err(parse_error());
            }
            match parse_seq_items(tokens, p + 1, depth - 1) {
                Ok((node_items, p2)) => {
                    items.push(Node::Sequence(node_items));
                    p = p2;
                }
                Err(e) => {
                    return Err(e);
                }
            }
        } else if crate::text::str_eq(t.as_str(), "parbegin") || crate::text::str_eq(
            t.as_str(),
            "end",
        ) {
            return Err(parse_error());
        } else {
            items.push(Node::Atomic(t.clone()));
            p = p + 1;
        }
    }
}

/// Parses the items of a sequential block up to its `end`: identifiers
/// and nested `parbegin ... parend` blocks.
fn parse_seq_items(tokens: &Vec<String>, pos: usize, depth: usize) -> (r: Result<
    (Vec<Node>, usize),
    Error,
>)
    requires
        pos <= tokens@.len(),
    ensures
        r matches Ok(np) ==> pos < np.1 <= tokens@.len(),
        r matches Err(e) ==> e is ParseError,
    decreases depth, 1int,
{
    let mut items: Vec<Node> = Vec::new();
    let mut p = pos;
    loop
        invariant
            pos <= p <= tokens@.len(),
        decreases tokens@.len() - p,
    {
        if p >= tokens.len() {
            return Err(parse_error());
        }
        let t = &tokens[p];
        if crate::text::str_eq(t.as_str(), "end") {
            return Ok((items, p + 1));
        } else if crate::text::str_eq(t.as_str(), "parbegin") {
            if depth == 0 {
                return Err(parse_error());
            }
            match parse_par_items(tokens, p + 1, depth - 1) {
                Ok((node, p2)) => {
                    items.push(node);
                    p = p2;
                }
                Err(e) => {
                    return Err(e);
                }
            }
        } else if crate::text::str_eq(t.as_str(), "begin") {
            return Err(parse_error());
        } else {
            items.push(Node::Atomic(t.clone()));
            p = p + 1;
        }
    }
}

/// Parses the Par notation: a `begin ... end` block of identifiers and
/// nested `parbegin`/`begin` blocks, whitespace separated.
pub fn parse(input: &str) -> (r: Result<Graph, Error>)
    ensures
        r matches Err(e) ==> e is ParseError,
{
    let tokens = match tokenize(input) {
        Ok(t) => t,
        Err(e) => {
            return Err(e);
        }
    };
    if tokens.len() == 0 || !crate::text::str_eq(tokens[0].as_str(), "begin") {
        return Err(parse_error());
    }
    let depth = tokens.len();
    match parse_seq_items(&tokens, 1, depth) {
        Ok((items, p)) => {
            if p == tokens.len() {
                Ok(Graph::new(items))
            } else {
                Err(parse_error())
            }
        }
        Err(e) => Err(e),
    }
}

} // verus!
