//! The linear Fork-Join notation: labeled statements over fork, join,
//! goto and atomic instructions.  `goto end` is the one terminal target;
//! it resolves to no statement.

use vstd::prelude::*;

verus! {

use vstd::multiset::Multiset;

/// Mathematical mirror of [`Node`].
pub enum NodeV {
    Join(Option<Seq<char>>),
    Goto(Seq<char>),
    Fork(Seq<char>),
    Atomic(Seq<char>),
}

/// One instruction of the Fork-Join notation.
#[derive(Debug)]
pub enum Node {
    Join(Option<String>),
    Goto(String),
    Fork(String),
    Atomic(String),
}

impl View for Node {
    type V = NodeV;

    open spec fn view(&self) -> NodeV {
        match self {
            Node::Join(id) => NodeV::Join(id.deep_view()),
            Node::Goto(target) => NodeV::Goto(target@),
            Node::Fork(target) => NodeV::Fork(target@),
            Node::Atomic(name) => NodeV::Atomic(name@),
        }
    }
}

impl DeepView for Node {
    type V = NodeV;

    open spec fn deep_view(&self) -> NodeV {
        self@
    }
}

/// Copies one instruction.
pub fn clone_node(n: &Node) -> (r: Node)
    ensures
        r@ == n@,
{
    match n {
        Node::Join(Some(id)) => Node::Join(Some(id.clone())),
        Node::Join(None) => Node::Join(None),
        Node::Goto(target) => Node::Goto(target.clone()),
        Node::Fork(target) => Node::Fork(target.clone()),
        Node::Atomic(name) => Node::Atomic(name.clone()),
    }
}

/// Mathematical mirror of [`Stmt`].
pub struct StmtV {
    pub label: Option<Seq<char>>,
    pub node: NodeV,
}

/// One statement: an instruction with an optional label.
#[derive(Debug)]
pub struct Stmt {
    pub label: Option<String>,
    pub node: Node,
}

impl View for Stmt {
    type V = StmtV;

    open spec fn view(&self) -> StmtV {
        StmtV { label: self.label.deep_view(), node: self.node@ }
    }
}

impl Stmt {
    pub fn new(label: Option<String>, node: Node) -> (r: Self)
        ensures
            r@ == (StmtV { label: label.deep_view(), node: node@ }),
    {
        Self { label, node }
    }
}

/// A statement that certainly carries a label.
#[derive(Debug)]
pub struct LabeledStmt {
    pub label: String,
    pub node: Node,
}

impl From<LabeledStmt> for Stmt {
    fn from(labeled: LabeledStmt) -> (r: Self) {
        Self { label: Some(labeled.label), node: labeled.node }
    }
}

impl vstd::std_specs::convert::FromSpecImpl<LabeledStmt> for Stmt {
    open spec fn obeys_from_spec() -> bool {
        true
    }

    open spec fn from_spec(labeled: LabeledStmt) -> Stmt {
        Stmt { label: Some(labeled.label), node: labeled.node }
    }
}

pub open spec fn stmts_view(s: Seq<Stmt>) -> Seq<StmtV>
    decreases s,
{
    if s.len() == 0 {
        Seq::empty()
    } else {
        stmts_view(s.drop_last()).push(s.last()@)
    }
}

pub broadcast proof fn lemma_stmts_view_len(s: Seq<Stmt>)
    ensures
        #[trigger] stmts_view(s).len() == s.len(),
    decreases s,
{
    if s.len() != 0 {
        lemma_stmts_view_len(s.drop_last());
    }
}

pub broadcast proof fn lemma_stmts_view_index(s: Seq<Stmt>, i: int)
    requires
        0 <= i < s.len(),
    ensures
        #[trigger] stmts_view(s)[i] == s[i]@,
    decreases s,
{
    lemma_stmts_view_len(s);
    if i < s.len() - 1 {
        lemma_stmts_view_index(s.drop_last(), i);
    }
}

pub broadcast group group_stmts_view {
    lemma_stmts_view_len,
    lemma_stmts_view_index,
}

/// The atomic-task names one statement contributes.
pub open spec fn stmt_atoms(s: StmtV) -> Multiset<Seq<char>> {
    match s.node {
        NodeV::Atomic(name) => Multiset::empty().insert(name),
        _ => Multiset::empty(),
    }
}

/// The multiset of atomic-task names in a statement list.
pub open spec fn stmts_atoms(s: Seq<StmtV>) -> Multiset<Seq<char>>
    decreases s,
{
    if s.len() == 0 {
        Multiset::empty()
    } else {
        stmts_atoms(s.drop_last()).add(stmt_atoms(s.last()))
    }
}

/// Atom multisets add up over concatenation.
pub proof fn lemma_stmts_atoms_concat(a: Seq<StmtV>, b: Seq<StmtV>)
    ensures
        stmts_atoms(a + b) == stmts_atoms(a).add(stmts_atoms(b)),
    decreases b,
{
    if b.len() == 0 {
        assert(a + b =~= a);
        assert(stmts_atoms(a).add(stmts_atoms(b)) =~= stmts_atoms(a));
    } else {
        lemma_stmts_atoms_concat(a, b.drop_last());
        assert((a + b).drop_last() =~= a + b.drop_last());
        assert(stmts_atoms(a).add(stmts_atoms(b)) =~= stmts_atoms(a + b.drop_last()).add(
            stmt_atoms(b.last()),
        ));
    }
}

/// Reading one statement off the end of a list.
pub proof fn lemma_stmts_snoc(s: Seq<Stmt>)
    requires
        s.len() > 0,
    ensures
        stmts_view(s) == stmts_view(s.drop_last()).push(s.last()@),
        stmts_atoms(stmts_view(s)) == stmts_atoms(stmts_view(s.drop_last())).add(
            stmt_atoms(s.last()@),
        ),
{
    broadcast use group_stmts_view;

    let x = stmts_view(s.drop_last());
    let y = s.last()@;
    assert((x.push(y)).drop_last() =~= x);
    assert((x.push(y)).last() == y);
}

/// The Fork-Join graph: an ordered list of statements.
#[derive(Debug)]
pub struct Graph(pub Vec<Stmt>);

impl View for Graph {
    type V = Seq<StmtV>;

    open spec fn view(&self) -> Seq<StmtV> {
        stmts_view(self.0@)
    }
}

impl Graph {
    pub fn new(stmts: Vec<Stmt>) -> (r: Self)
        ensures
            r.0 == stmts,
            r@ == stmts_view(stmts@),
    {
        Self(stmts)
    }
}


/// The printed line of one statement, and whether the next line is still
/// inside a deferred branch (which gets deeper indentation).
pub open spec fn stmt_line(s: StmtV, in_branch: bool) -> (Seq<char>, bool) {
    let prefix_state = match s.label {
        Some(l) => ("    "@ + l + ": "@, true),
        None => (
            if in_branch {
                "        "@
            } else {
                "    "@
            },
            in_branch,
        ),
    };
    match s.node {
        NodeV::Atomic(name) => (prefix_state.0 + name + seq!['\n'], prefix_state.1),
        NodeV::Fork(t) => (prefix_state.0 + "fork "@ + t + seq!['\n'], prefix_state.1),
        NodeV::Goto(t) => (prefix_state.0 + "goto "@ + t + seq!['\n'], false),
        NodeV::Join(Some(t)) => (prefix_state.0 + "join "@ + t + seq!['\n'], false),
        NodeV::Join(None) => (prefix_state.0 + "join"@ + seq!['\n'], false),
    }
}

/// The printed lines of a statement list, threading the branch state.
pub open spec fn stmts_text(s: Seq<StmtV>, in_branch: bool) -> (Seq<char>, bool)
    decreases s,
{
    if s.len() == 0 {
        (Seq::empty(), in_branch)
    } else {
        let sofar = stmts_text(s.drop_last(), in_branch);
        let line = stmt_line(s.last(), sofar.1);
        (sofar.0 + line.0, line.1)
    }
}

/// The text of a whole Fork-Join graph.
pub open spec fn graph_text(s: Seq<StmtV>) -> Seq<char> {
    "begin"@ + seq!['\n'] + stmts_text(s, false).0 + "end"@
}

impl Graph {
    /// The indented text of this program.
    #[verifier::loop_isolation(false)]
    #[verifier::rlimit(60)]
    pub fn to_text(&self) -> (r: String)
        ensures
            r@ == graph_text(self@),
    {
        broadcast use group_stmts_view;

        proof {
            reveal_strlit("\n");
            assert("\n"@ =~= seq!['\n']);
        }
        let mut out = String::from_str("begin");
        out.append("\n");
        let ghost gv = self@;
        let ghost base = out@;
        let mut in_branch = false;
        let mut i: usize = 0;
        while i < self.0.len()
            invariant
                i <= self.0.len(),
                out@ == base + stmts_text(gv.take(i as int), false).0,
                in_branch == stmts_text(gv.take(i as int), false).1,
            decreases self.0.len() - i,
        {
            proof {
                assert(gv.take(i + 1).drop_last() =~= gv.take(i as int));
                assert(gv.take(i + 1).last() == gv[i as int]);
                assert(stmts_view(self.0@)[i as int] == self.0@[i as int]@);
            }
            let stmt = &self.0[i];
            match &stmt.label {
                Some(label) => {
                    out.append("    ");
                    out.append(label.as_str());
                    out.append(": ");
                    in_branch = true;
                }
                None => {
                    if in_branch {
                        out.append("        ");
                    } else {
                        out.append("    ");
                    }
                }
            }
            match &stmt.node {
                Node::Atomic(name) => {
                    out.append(name.as_str());
                    out.append("\n");
                }
                Node::Fork(target) => {
                    out.append("fork ");
                    out.append(target.as_str());
                    out.append("\n");
                }
                Node::Goto(target) => {
                    out.append("goto ");
                    out.append(target.as_str());
                    out.append("\n");
                    in_branch = false;
                }
                Node::Join(Some(target)) => {
                    out.append("join ");
                    out.append(target.as_str());
                    out.append("\n");
                    in_branch = false;
                }
                Node::Join(None) => {
                    out.append("join");
                    out.append("\n");
                    in_branch = false;
                }
            }
            proof {
                assert(out@ =~= base + stmts_text(gv.take(i + 1), false).0);
            }
            i += 1;
        }
        proof {
            assert(gv.take(self.0@.len() as int) =~= gv);
            assert(stmts_view(self.0@).len() == self.0@.len());
        }
        out.append("end");
        proof {
            assert(out@ =~= graph_text(self@));
        }
        out
    }
}


fn parse_error() -> (r: crate::error::Error)
    ensures
        r is ParseError,
{
    crate::error::Error::ParseError(String::from_str("ForkJoin: malformed input"))
}

/// Splits the input into lines of whitespace-separated words; empty
/// lines are dropped.
#[verifier::loop_isolation(false)]
fn split_lines(input: &str) -> (r: Vec<Vec<String>>) {
    let len = input.unicode_len();
    let mut lines: Vec<Vec<String>> = Vec::new();
    let mut current: Vec<String> = Vec::new();
    let mut p: usize = 0;
    while p < len
        invariant
            p <= len,
            len == input@.len(),
        decreases len - p,
    {
        let c = input.get_char(p);
        if c == '\n' {
            if current.len() > 0 {
                lines.push(current);
                current = Vec::new();
            }
            p = p + 1;
        } else if crate::text::ws_char(c) {
            p = p + 1;
        } else {
            let end = crate::text::scan_word(input, len, p);
            current.push(crate::text::ident_at(input, p, end));
            p = if end > p {
                end
            } else {
                p + 1
            };
        }
    }
    if current.len() > 0 {
        lines.push(current);
    }
    lines
}

/// Parses the words of one statement line: an optional `label:` prefix,
/// then an atomic name, `fork target`, `goto target`, or `join` with an
/// optional identifier.
fn parse_stmt_words(words: &Vec<String>) -> (r: Result<Stmt, crate::error::Error>)
    ensures
        r matches Err(e) ==> e is ParseError,
{
    let mut label: Option<String> = None;
    let mut from: usize = 0;
    if words.len() == 0 {
        return Err(parse_error());
    }
    let w0 = &words[0];
    let w0_len = w0.as_str().unicode_len();
    if w0_len >= 2 && w0.as_str().get_char(w0_len - 1) == ':' {
        label = Some(w0.as_str().substring_char(0, w0_len - 1).to_owned());
        from = 1;
    }
    let rest = words.len() - from;
    if rest == 1 {
        let w = &words[from];
        if crate::text::str_eq(w.as_str(), "join") {
            Ok(Stmt::new(label, Node::Join(None)))
        } else if crate::text::str_eq(w.as_str(), "fork") || crate::text::str_eq(
            w.as_str(),
            "goto",
        ) {
            Err(parse_error())
        } else {
            Ok(Stmt::new(label, Node::Atomic(w.clone())))
        }
    } else if rest == 2 {
        let w = &words[from];
        let t = &words[from + 1];
        if crate::text::str_eq(w.as_str(), "fork") {
            Ok(Stmt::new(label, Node::Fork(t.clone())))
        } else if crate::text::str_eq(w.as_str(), "goto") {
            Ok(Stmt::new(label, Node::Goto(t.clone())))
        } else if crate::text::str_eq(w.as_str(), "join") {
            Ok(Stmt::new(label, Node::Join(Some(t.clone()))))
        } else {
            Err(parse_error())
        }
    } else {
        Err(parse_error())
    }
}

/// Parses the Fork-Join notation: a `begin ... end` block with one
/// statement per line.
#[verifier::loop_isolation(false)]
pub fn parse(input: &str) -> (r: Result<Graph, crate::error::Error>)
    ensures
        r matches Err(e) ==> e is ParseError,
{
    let lines = split_lines(input);
    if lines.len() < 2 {
        return Err(parse_error());
    }
    let first = &lines[0];
    if !(first.len() == 1 && crate::text::str_eq(first[0].as_str(), "begin")) {
        return Err(parse_error());
    }
    let last = &lines[lines.len() - 1];
    if !(last.len() == 1 && crate::text::str_eq(last[0].as_str(), "end")) {
        return Err(parse_error());
    }
    let mut stmts: Vec<Stmt> = Vec::new();
    let mut i: usize = 1;
    while i < lines.len() - 1
        invariant
            1 <= i <= lines.len() - 1,
            lines@.len() >= 2,
        decreases lines.len() - i,
    {
        match parse_stmt_words(&lines[i]) {
            Ok(stmt) => {
                stmts.push(stmt);
            }
            Err(e) => {
                return Err(e);
            }
        }
        i += 1;
    }
    Ok(Graph::new(stmts))
}

} // verus!
