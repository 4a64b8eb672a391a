//! The structured notation: the canonical model every conversion pivots
//! through.  A graph is a list of nodes; a node is a parallel block, a
//! sequential block, an atomic task with dependency annotations and a
//! terminal marker, or a bare dependency name.

use vstd::prelude::*;

verus! {

use vstd::multiset::Multiset;
use vstd::set::Set;

/// Mathematical mirror of [`Node`]: what contracts speak about.
pub enum NodeV {
    Par(Seq<NodeV>),
    Sequence(Seq<NodeV>),
    Atomic(Seq<char>, Seq<NodeV>, bool),
    Dep(Seq<char>),
}

/// One node of the structured notation.
///
/// An `Atomic` carries its name, its dependency list (each entry a
/// [`Node::Dep`]) and its terminal marker.
#[derive(Debug)]
pub enum Node {
    Par(Vec<Node>),
    Sequence(Vec<Node>),
    Atomic(String, Vec<Node>, bool),
    Dep(String),
}

pub open spec fn node_view(n: Node) -> NodeV
    decreases n,
{
    match n {
        Node::Par(v) => NodeV::Par(nodes_view(v@)),
        Node::Sequence(v) => NodeV::Sequence(nodes_view(v@)),
        Node::Atomic(name, deps, terminal) => NodeV::Atomic(name@, nodes_view(deps@), terminal),
        Node::Dep(name) => NodeV::Dep(name@),
    }
}

pub open spec fn nodes_view(s: Seq<Node>) -> Seq<NodeV>
    decreases s,
{
    if s.len() == 0 {
        Seq::empty()
    } else {
        seq![node_view(s[0])] + nodes_view(s.drop_first())
    }
}

impl View for Node {
    type V = NodeV;

    open spec fn view(&self) -> NodeV {
        node_view(*self)
    }
}

pub broadcast proof fn lemma_nodes_view_len(s: Seq<Node>)
    ensures
        #[trigger] nodes_view(s).len() == s.len(),
    decreases s,
{
    if s.len() != 0 {
        lemma_nodes_view_len(s.drop_first());
    }
}

pub broadcast proof fn lemma_nodes_view_index(s: Seq<Node>, i: int)
    requires
        0 <= i < s.len(),
    ensures
        #[trigger] nodes_view(s)[i] == node_view(s[i]),
    decreases s,
{
    lemma_nodes_view_len(s);
    if i > 0 {
        lemma_nodes_view_index(s.drop_first(), i - 1);
    }
}

/// One more node on the end of a list, seen through the view.
pub proof fn lemma_nodes_view_push(before: Seq<Node>, after: Seq<Node>)
    requires
        after.len() == before.len() + 1,
        after.drop_last() == before,
    ensures
        nodes_view(after) == nodes_view(before).push(node_view(after.last())),
{
    lemma_nodes_view_len(after);
    lemma_nodes_view_len(before);
    assert forall|k: int|
        0 <= k < after.len() implies #[trigger] nodes_view(after)[k] == nodes_view(before).push(
        node_view(after.last()),
    )[k] by {
        lemma_nodes_view_index(after, k);
        if k < before.len() {
            lemma_nodes_view_index(before, k);
            assert(after[k] == before[k]);
        }
    }
    assert(nodes_view(after) =~= nodes_view(before).push(node_view(after.last())));
}

pub broadcast group group_nodes_view {
    lemma_nodes_view_len,
    lemma_nodes_view_index,
}

/// The names carried by the `Dep` entries of a dependency list, in order;
/// anything that is not a `Dep` contributes nothing.
pub open spec fn dep_names(deps: Seq<NodeV>) -> Seq<Seq<char>>
    decreases deps,
{
    if deps.len() == 0 {
        Seq::empty()
    } else {
        dep_names(deps.drop_last()) + (match deps.last() {
            NodeV::Dep(name) => seq![name],
            _ => Seq::empty(),
        })
    }
}

/// The multiset of atomic-task names in one node.
pub open spec fn node_atoms(n: NodeV) -> Multiset<Seq<char>>
    decreases n,
{
    match n {
        NodeV::Par(v) => nodes_atoms(v),
        NodeV::Sequence(v) => nodes_atoms(v),
        NodeV::Atomic(name, _, _) => Multiset::empty().insert(name),
        NodeV::Dep(_) => Multiset::empty(),
    }
}

/// The multiset of atomic-task names in a node list.
pub open spec fn nodes_atoms(s: Seq<NodeV>) -> Multiset<Seq<char>>
    decreases s,
{
    if s.len() == 0 {
        Multiset::empty()
    } else {
        nodes_atoms(s.drop_last()).add(node_atoms(s.last()))
    }
}

/// The set of atomic-task names under one node.
pub open spec fn node_names(n: NodeV) -> Set<Seq<char>>
    decreases n,
{
    match n {
        NodeV::Par(v) => nodes_names(v),
        NodeV::Sequence(v) => nodes_names(v),
        NodeV::Atomic(name, _, _) => Set::empty().insert(name),
        NodeV::Dep(_) => Set::empty(),
    }
}

/// The set of atomic-task names under a node list.
pub open spec fn nodes_names(s: Seq<NodeV>) -> Set<Seq<char>>
    decreases s,
{
    if s.len() == 0 {
        Set::empty()
    } else {
        nodes_names(s.drop_last()).union(node_names(s.last()))
    }
}

/// The structured-notation graph: a list of top-level nodes.
#[derive(Debug)]
pub struct Graph(pub Vec<Node>);

impl View for Graph {
    type V = Seq<NodeV>;

    open spec fn view(&self) -> Seq<NodeV> {
        nodes_view(self.0@)
    }
}

impl Graph {
    pub fn new(nodes: Vec<Node>) -> (r: Self)
        ensures
            r.0 == nodes,
            r@ == nodes_view(nodes@),
    {
        Self(nodes)
    }
}


/// The canonical text of one node: `{...}` for parallel, `[...]` for
/// sequential blocks, `name#{a,b}` for dependencies, a trailing `!` for
/// the terminal marker.
pub open spec fn node_text(n: NodeV) -> Seq<char>
    decreases n,
{
    match n {
        NodeV::Par(v) => seq!['{'] + list_text(v) + seq!['}'],
        NodeV::Sequence(v) => seq!['['] + list_text(v) + seq![']'],
        NodeV::Atomic(name, deps, terminal) => name + (if deps.len() > 0 {
            seq!['#', '{'] + join_comma(dep_names(deps)) + seq!['}']
        } else {
            Seq::empty()
        }) + (if terminal {
            seq!['!']
        } else {
            Seq::empty()
        }),
        NodeV::Dep(name) => name,
    }
}

/// Node texts joined with commas.
pub open spec fn list_text(s: Seq<NodeV>) -> Seq<char>
    decreases s,
{
    if s.len() == 0 {
        Seq::empty()
    } else if s.len() == 1 {
        node_text(s[0])
    } else {
        list_text(s.drop_last()) + seq![','] + node_text(s.last())
    }
}

/// Names joined with commas.
pub open spec fn join_comma(names: Seq<Seq<char>>) -> Seq<char>
    decreases names,
{
    if names.len() == 0 {
        Seq::empty()
    } else if names.len() == 1 {
        names[0]
    } else {
        join_comma(names.drop_last()) + seq![','] + names.last()
    }
}

/// The canonical text of a whole graph, wrapped in dollar signs.
pub open spec fn graph_text(s: Seq<NodeV>) -> Seq<char> {
    seq!['$'] + list_text(s) + seq!['$']
}

/// Writes one node in the canonical notation.
#[verifier::loop_isolation(false)]
#[verifier::rlimit(60)]
pub fn format_node(node: &Node) -> (r: String)
    ensures
        r@ == node_text(node@),
    decreases node,
{
    broadcast use group_nodes_view;

    match node {
        Node::Par(children) => {
            let mut out = String::from_str("{");
            proof {
                reveal_strlit("{");
                reveal_strlit("}");
            }
            let inner = format_nodes(children);
            out.append(inner.as_str());
            out.append("}");
            proof {
                assert(out@ =~= node_text(node@));
            }
            out
        }
        Node::Sequence(children) => {
            let mut out = String::from_str("[");
            proof {
                reveal_strlit("[");
                reveal_strlit("]");
            }
            let inner = format_nodes(children);
            out.append(inner.as_str());
            out.append("]");
            proof {
                assert(out@ =~= node_text(node@));
            }
            out
        }
        Node::Atomic(name, deps, terminal) => {
            let mut out = name.clone();
            if deps.len() > 0 {
                proof {
                    reveal_strlit("#{");
                    reveal_strlit("}");
                    assert("#{"@ =~= seq!['#', '{']);
                    assert("}"@ =~= seq!['}']);
                }
                out.append("#{");
                let ghost dv = nodes_view(deps@);
                let mut first = true;
                let ghost base = out@;
                let mut j: usize = 0;
                while j < deps.len()
                    invariant
                        j <= deps.len(),
                        first <==> dep_names(dv.take(j as int)).len() == 0,
                        out@ == base + join_comma(dep_names(dv.take(j as int))),
                    decreases deps.len() - j,
                {
                    proof {
                        assert(dv.take(j + 1).drop_last() =~= dv.take(j as int));
                        assert(dv.take(j + 1).last() == dv[j as int]);
                        assert(nodes_view(deps@)[j as int] == node_view(deps@[j as int]));
                        lemma_dep_names_len(dv.take(j + 1));
                        lemma_dep_names_len(dv.take(j as int));
                    }
                    match &deps[j] {
                        Node::Dep(dep_name) => {
                            let ghost names0 = dep_names(dv.take(j as int));
                            proof {
                                assert(dep_names(dv.take(j + 1)) =~= names0.push(dep_name@));
                                assert(names0.push(dep_name@).drop_last() =~= names0);
                                assert(names0.push(dep_name@).last() == dep_name@);
                            }
                            if !first {
                                proof {
                                    reveal_strlit(",");
                                    assert(","@ =~= seq![',']);
                                }
                                out.append(",");
                            }
                            out.append(dep_name.as_str());
                            first = false;
                            proof {
                                assert(out@ =~= base + join_comma(dep_names(dv.take(j + 1))));
                            }
                        }
                        _ => {
                            proof {
                                assert(dep_names(dv.take(j + 1)) =~= dep_names(dv.take(j as int)));
                            }
                        }
                    }
                    j += 1;
                }
                proof {
                    assert(nodes_view(deps@).len() == deps@.len());
                    assert(dv.take(dv.len() as int) =~= dv);
                }
                out.append("}");
            }
            if *terminal {
                proof {
                    reveal_strlit("!");
                    assert("!"@ =~= seq!['!']);
                }
                out.append("!");
            }
            proof {
                assert(out@ =~= node_text(node@));
            }
            out
        }
        Node::Dep(name) => name.clone(),
    }
}

/// The number of dependency names grows by at most one per entry.
proof fn lemma_dep_names_len(deps: Seq<NodeV>)
    ensures
        dep_names(deps).len() <= deps.len(),
    decreases deps,
{
    if deps.len() > 0 {
        lemma_dep_names_len(deps.drop_last());
    }
}

/// Writes a node list joined with commas.
#[verifier::loop_isolation(false)]
pub fn format_nodes(nodes: &Vec<Node>) -> (r: String)
    ensures
        r@ == list_text(nodes_view(nodes@)),
    decreases nodes,
{
    broadcast use group_nodes_view;

    let ghost nv = nodes_view(nodes@);
    let mut out = String::new();
    let mut i: usize = 0;
    while i < nodes.len()
        invariant
            i <= nodes.len(),
            out@ == list_text(nv.take(i as int)),
        decreases nodes.len() - i,
    {
        proof {
            assert(nv.take(i + 1).drop_last() =~= nv.take(i as int));
            assert(nv.take(i + 1).last() == nv[i as int]);
            assert(nodes_view(nodes@)[i as int] == node_view(nodes@[i as int]));
            assert(decreases_to!(*nodes => nodes[i as int]));
        }
        if i > 0 {
            proof {
                reveal_strlit(",");
                assert(","@ =~= seq![',']);
            }
            out.append(",");
        }
        let t = format_node(&nodes[i]);
        out.append(t.as_str());
        proof {
            if i == 0 {
                assert(out@ =~= list_text(nv.take(1)));
            } else {
                assert(out@ =~= list_text(nv.take(i + 1)));
            }
        }
        i += 1;
    }
    proof {
        assert(nv.take(nodes@.len() as int) =~= nv);
    }
    out
}

impl Graph {
    /// The canonical text of this graph.
    pub fn to_text(&self) -> (r: String)
        ensures
            r@ == graph_text(self@),
    {
        let mut out = String::from_str("$");
        proof {
            reveal_strlit("$");
            assert("$"@ =~= seq!['$']);
        }
        let inner = format_nodes(&self.0);
        out.append(inner.as_str());
        out.append("$");
        proof {
            assert(out@ =~= graph_text(self@));
        }
        out
    }
}


/// Well-formed dependency lists hold nothing but bare dependency names.
pub open spec fn deps_only(s: Seq<NodeV>) -> bool
    decreases s,
{
    s.len() == 0 || (deps_only(s.drop_last()) && s.last() is Dep)
}

/// Well-formed nodes carry well-formed dependency lists everywhere.
pub open spec fn wf_node(n: NodeV) -> bool
    decreases n,
{
    match n {
        NodeV::Par(v) => wf_nodes(v),
        NodeV::Sequence(v) => wf_nodes(v),
        NodeV::Atomic(_, deps, _) => deps_only(deps),
        NodeV::Dep(_) => true,
    }
}

pub open spec fn wf_nodes(s: Seq<NodeV>) -> bool
    decreases s,
{
    s.len() == 0 || (wf_nodes(s.drop_last()) && wf_node(s.last()))
}

fn parse_error() -> (r: crate::error::Error)
    ensures
        r is ParseError,
{
    crate::error::Error::ParseError(String::from_str("IR: malformed input"))
}

/// Parses one node: a `{...}` parallel block, a `[...]` sequential
/// block, or a task with optional dependencies and terminal marker.  On
/// success the position advances past the node.
#[verifier::loop_isolation(false)]
fn parse_one(s: &str, len: usize, pos: usize, depth: usize) -> (r: Result<
    (Node, usize),
    crate::error::Error,
>)
    requires
        len == s@.len(),
        pos <= len,
    ensures
        r matches Ok(np) ==> pos < np.1 <= len && wf_node(np.0@),
        r matches Err(e) ==> e is ParseError,
    decreases depth, 0int,
{
    let p = crate::text::skip_ws(s, len, pos);
    if p >= len {
        return Err(parse_error());
    }
    let c = s.get_char(p);
    if c == '{' {
        if depth == 0 {
            return Err(parse_error());
        }
        match parse_list(s, len, p + 1, depth - 1) {
            Ok((children, p2)) => {
                let p3 = crate::text::skip_ws(s, len, p2);
                if p3 < len && s.get_char(p3) == '}' {
                    let node = Node::Par(children);
                    proof {
                        assert(wf_node(node_view(node)));
                    }
                    Ok((node, p3 + 1))
                } else {
                    Err(parse_error())
                }
            }
            Err(e) => Err(e),
        }
    } else if c == '[' {
        if depth == 0 {
            return Err(parse_error());
        }
        match parse_list(s, len, p + 1, depth - 1) {
            Ok((children, p2)) => {
                let p3 = crate::text::skip_ws(s, len, p2);
                if p3 < len && s.get_char(p3) == ']' {
                    let node = Node::Sequence(children);
                    proof {
                        assert(wf_node(node_view(node)));
                    }
                    Ok((node, p3 + 1))
                } else {
                    Err(parse_error())
                }
            }
            Err(e) => Err(e),
        }
    } else {
        let end = crate::text::scan_ident(s, len, p);
        if end == p {
            return Err(parse_error());
        }
        let name = crate::text::ident_at(s, p, end);
        let mut deps: Vec<Node> = Vec::new();
        let mut q = end;
        if q < len && q + 1 < len && s.get_char(q) == '#' && s.get_char(q + 1) == '{' {
            q = q + 2;
            let mut done = false;
            while !done
                invariant
                    q <= len,
                    deps_only(nodes_view(deps@)),
                decreases len - q, (if done { 0int } else { 1int }),
            {
                let q1 = crate::text::skip_ws(s, len, q);
                if q1 >= len {
                    return Err(parse_error());
                }
                if s.get_char(q1) == '}' {
                    q = q1 + 1;
                    done = true;
                } else {
                    let e2 = crate::text::scan_ident(s, len, q1);
                    if e2 == q1 {
                        return Err(parse_error());
                    }
                    let dep_name = crate::text::ident_at(s, q1, e2);
                    let ghost d0 = deps@;
                    deps.push(Node::Dep(dep_name));
                    proof {
                        assert(deps@.drop_last() =~= d0);
                        lemma_nodes_view_push(d0, deps@);
                        let q0 = nodes_view(d0);
                        let y = node_view(deps@.last());
                        assert((q0.push(y)).drop_last() =~= q0);
                        assert((q0.push(y)).last() == y);
                        assert(deps_only(nodes_view(deps@)));
                    }
                    let q2 = crate::text::skip_ws(s, len, e2);
                    if q2 < len && s.get_char(q2) == ',' {
                        q = q2 + 1;
                    } else {
                        q = q2;
                    }
                }
            }
        }
        let mut terminal = false;
        if q < len && s.get_char(q) == '!' {
            terminal = true;
            q = q + 1;
        }
        if q <= p {
            return Err(parse_error());
        }
        let node = Node::Atomic(name, deps, terminal);
        proof {
            assert(wf_node(node_view(node)));
        }
        Ok((node, q))
    }
}

/// Parses a comma-separated node list; stops before a closing bracket or
/// the final dollar sign.
#[verifier::loop_isolation(false)]
fn parse_list(s: &str, len: usize, pos: usize, depth: usize) -> (r: Result<
    (Vec<Node>, usize),
    crate::error::Error,
>)
    requires
        len == s@.len(),
        pos <= len,
    ensures
        r matches Ok(np) ==> pos <= np.1 <= len && wf_nodes(nodes_view(np.0@)),
        r matches Err(e) ==> e is ParseError,
    decreases depth, 1int,
{
    broadcast use group_nodes_view;

    let mut nodes: Vec<Node> = Vec::new();
    let mut p = crate::text::skip_ws(s, len, pos);
    proof {
        assert(nodes_view(nodes@) =~= Seq::<NodeV>::empty());
    }
    loop
        invariant
            pos <= p <= len,
            len == s@.len(),
            wf_nodes(nodes_view(nodes@)),
        decreases len - p,
    {
        if p >= len {
            break;
        }
        let c = s.get_char(p);
        if c == '}' || c == ']' || c == '$' {
            break;
        }
        match parse_one(s, len, p, depth) {
            Ok((node, p2)) => {
                let ghost n0 = nodes@;
                nodes.push(node);
                proof {
                    assert(nodes@.drop_last() =~= n0);
                    lemma_nodes_view_push(n0, nodes@);
                    let q0 = nodes_view(n0);
                    let y = node_view(nodes@.last());
                    assert((q0.push(y)).drop_last() =~= q0);
                    assert((q0.push(y)).last() == y);
                    assert(wf_nodes(nodes_view(nodes@)));
                }
                let p3 = crate::text::skip_ws(s, len, p2);
                if p3 < len && s.get_char(p3) == ',' {
                    p = p3 + 1;
                } else {
                    p = p3;
                    break;
                }
            }
            Err(e) => {
                return Err(e);
            }
        }
    }
    Ok((nodes, p))
}

/// Parses the canonical notation: a `$...$`-wrapped, comma-separated
/// list of nodes.
pub fn parse(input: &str) -> (r: Result<Graph, crate::error::Error>)
    ensures
        r matches Ok(g) ==> wf_nodes(g@),
        r matches Err(e) ==> e is ParseError,
{
    let len = input.unicode_len();
    let p = crate::text::skip_ws(input, len, 0);
    if p >= len || input.get_char(p) != '$' {
        return Err(parse_error());
    }
    match parse_list(input, len, p + 1, len) {
        Ok((nodes, p2)) => {
            let p3 = crate::text::skip_ws(input, len, p2);
            if p3 < len && input.get_char(p3) == '$' {
                let p4 = crate::text::skip_ws(input, len, p3 + 1);
                if p4 == len {
                    Ok(Graph::new(nodes))
                } else {
                    Err(parse_error())
                }
            } else {
                Err(parse_error())
            }
        }
        Err(e) => Err(e),
    }
}

} // verus!
