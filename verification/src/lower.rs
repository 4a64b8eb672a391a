//! Lowering the structured notation into linear Fork-Join code.
//!
//! A parallel block becomes one fork per non-first branch, the first
//! branch inlined, a fresh join label, and the other branches deferred as
//! labeled blocks that are flushed after the whole main stream and end
//! with a goto back to the join.  Dependency annotations and terminal
//! markers cannot be written in this notation; a terminal atomic becomes
//! an unconditional `goto end`.  The contract threaded through the whole
//! walk: the multiset of atomic-task names is preserved exactly.

use vstd::prelude::*;

verus! {

use vstd::multiset::Multiset;
use vstd::string::*;

use crate::fk;
use crate::fk::{Stmt, StmtV};
use crate::ir;
use crate::text;

/// Mathematical mirror of [`Branch`].
pub struct BranchV {
    pub label: Seq<char>,
    pub stmts: Seq<StmtV>,
    pub goto_target: Seq<char>,
}

/// One deferred branch: its entry label, its body, and the join label its
/// trailing goto jumps to.
struct Branch {
    label: String,
    stmts: Vec<Stmt>,
    goto_target: String,
}

impl View for Branch {
    type V = BranchV;

    closed spec fn view(&self) -> BranchV {
        BranchV {
            label: self.label@,
            stmts: fk::stmts_view(self.stmts@),
            goto_target: self.goto_target@,
        }
    }
}

spec fn branches_view(s: Seq<Branch>) -> Seq<BranchV>
    decreases s,
{
    if s.len() == 0 {
        Seq::empty()
    } else {
        branches_view(s.drop_last()).push(s.last()@)
    }
}

/// The atomic names deferred in a branch list.
pub open spec fn branches_atoms(s: Seq<BranchV>) -> Multiset<Seq<char>>
    decreases s,
{
    if s.len() == 0 {
        Multiset::empty()
    } else {
        branches_atoms(s.drop_last()).add(fk::stmts_atoms(s.last().stmts))
    }
}

proof fn lemma_branches_view_concat(a: Seq<Branch>, b: Seq<Branch>)
    ensures
        branches_view(a + b) == branches_view(a) + branches_view(b),
    decreases b,
{
    if b.len() == 0 {
        assert(a + b =~= a);
        assert(branches_view(a) + branches_view(b) =~= branches_view(a));
    } else {
        lemma_branches_view_concat(a, b.drop_last());
        assert((a + b).drop_last() =~= a + b.drop_last());
        assert(branches_view(a) + branches_view(b) =~= (branches_view(a) + branches_view(
            b.drop_last(),
        )).push(b.last()@));
    }
}

proof fn lemma_branches_atoms_concat(a: Seq<BranchV>, b: Seq<BranchV>)
    ensures
        branches_atoms(a + b) == branches_atoms(a).add(branches_atoms(b)),
    decreases b,
{
    if b.len() == 0 {
        assert(a + b =~= a);
        assert(branches_atoms(a).add(branches_atoms(b)) =~= branches_atoms(a));
    } else {
        lemma_branches_atoms_concat(a, b.drop_last());
        assert((a + b).drop_last() =~= a + b.drop_last());
        assert(branches_atoms(a).add(branches_atoms(b)) =~= branches_atoms(a + b.drop_last()).add(
            fk::stmts_atoms(b.last().stmts),
        ));
    }
}

proof fn lemma_ir_atoms_concat(a: Seq<ir::NodeV>, b: Seq<ir::NodeV>)
    ensures
        ir::nodes_atoms(a + b) == ir::nodes_atoms(a).add(ir::nodes_atoms(b)),
    decreases b,
{
    if b.len() == 0 {
        assert(a + b =~= a);
        assert(ir::nodes_atoms(a).add(ir::nodes_atoms(b)) =~= ir::nodes_atoms(a));
    } else {
        lemma_ir_atoms_concat(a, b.drop_last());
        assert((a + b).drop_last() =~= a + b.drop_last());
        assert(ir::nodes_atoms(a).add(ir::nodes_atoms(b)) =~= ir::nodes_atoms(
            a + b.drop_last(),
        ).add(ir::node_atoms(b.last())));
    }
}

/// The walking state of one lowering pass: the main statement stream, the
/// deferred branches, and the label counter shared by the whole tree.
struct IrToFk {
    main_stmts: Vec<Stmt>,
    deferred_branches: Vec<Branch>,
    label_counter: usize,
}

impl IrToFk {
    /// Every atomic name held by this state, in the main stream or
    /// deferred.
    closed spec fn atoms(&self) -> Multiset<Seq<char>> {
        fk::stmts_atoms(fk::stmts_view(self.main_stmts@)).add(
            branches_atoms(branches_view(self.deferred_branches@)),
        )
    }

    /// The mirror state this converter is in.
    closed spec fn state(&self) -> LowerV {
        (
            fk::stmts_view(self.main_stmts@),
            branches_view(self.deferred_branches@),
            self.label_counter as nat,
        )
    }

    fn new() -> (r: Self)
        ensures
            r.atoms() == Multiset::<Seq<char>>::empty(),
            r.main_stmts@.len() == 0,
            r.deferred_branches@.len() == 0,
            r.label_counter == 0,
            r.state() == (Seq::<StmtV>::empty(), Seq::<BranchV>::empty(), 0nat),
    {
        let r = IrToFk { main_stmts: Vec::new(), deferred_branches: Vec::new(), label_counter: 0 };
        proof {
            assert(r.atoms() =~= Multiset::<Seq<char>>::empty());
            assert(r.state().0 =~= Seq::<StmtV>::empty());
            assert(r.state().1 =~= Seq::<BranchV>::empty());
        }
        r
    }

    /// Hands out the next fresh label, `L` followed by the counter.
    fn new_label(&mut self) -> (r: String)
        ensures
            r@ == seq!['L'] + crate::text::dec_str(old(self).label_counter as nat),
            final(self).main_stmts == old(self).main_stmts,
            final(self).deferred_branches == old(self).deferred_branches,
            final(self).atoms() == old(self).atoms(),
            final(self).label_counter >= old(self).label_counter,
            final(self).label_counter as nat == next_counter(old(self).label_counter as nat),
            r@ == label_text(old(self).label_counter as nat),
    {
        let mut label = String::from_str("L");
        label.append(text::usize_to_string(self.label_counter).as_str());
        proof {
            reveal_strlit("L");
            assert(label@ =~= seq!['L'] + crate::text::dec_str(self.label_counter as nat));
        }
        if self.label_counter < usize::MAX {
            self.label_counter = self.label_counter + 1;
        }
        label
    }
}

/// The name of the first atomic task under a node, or `unknown` where
/// there is none; fork labels are derived from it.
pub open spec fn first_name(n: ir::NodeV) -> Seq<char>
    decreases n,
{
    match n {
        ir::NodeV::Atomic(name, _, _) => name,
        ir::NodeV::Sequence(children) => if children.len() > 0 {
            first_name(children[0])
        } else {
            "unknown"@
        },
        ir::NodeV::Par(branches) => if branches.len() > 0 {
            first_name(branches[0])
        } else {
            "unknown"@
        },
        ir::NodeV::Dep(_) => "unknown"@,
    }
}

/// Mirror of the converter state: main stream, deferred branches, label
/// counter.
pub type LowerV = (Seq<StmtV>, Seq<BranchV>, nat);

/// The counter after handing out one label: one more, saturating at the
/// machine limit.
pub open spec fn next_counter(c: nat) -> nat {
    if c < usize::MAX {
        c + 1
    } else {
        c
    }
}

/// The text of the fresh label for one counter value.
pub open spec fn label_text(c: nat) -> Seq<char> {
    seq!['L'] + text::dec_str(c)
}

/// The text of the join identifier for one counter value.
pub open spec fn counter_text(c: nat) -> Seq<char> {
    seq!['c'] + text::dec_str(c)
}

/// The labels of the non-first branches: `L` followed by each branch's
/// first atomic name.
pub open spec fn branch_labels_spec(bs: Seq<ir::NodeV>) -> Seq<Seq<char>> {
    if bs.len() == 0 {
        Seq::empty()
    } else {
        Seq::new((bs.len() - 1) as nat, |k: int| seq!['L'] + first_name(bs[k + 1]))
    }
}

/// One fork statement per branch label, in order.
pub open spec fn fork_stmts(labels: Seq<Seq<char>>) -> Seq<StmtV> {
    Seq::new(labels.len(), |k: int| StmtV { label: None, node: fk::NodeV::Fork(labels[k]) })
}

/// What lowering one node does to the converter state.
pub open spec fn convert_node_spec(n: ir::NodeV, st: LowerV) -> LowerV
    decreases n, 0int, 0int,
{
    match n {
        ir::NodeV::Atomic(name, _, terminal) => {
            let m1 = st.0.push(StmtV { label: None, node: fk::NodeV::Atomic(name) });
            let m2 = if terminal {
                m1.push(StmtV { label: None, node: fk::NodeV::Goto("end"@) })
            } else {
                m1
            };
            (m2, st.1, st.2)
        }
        ir::NodeV::Sequence(children) => convert_list_spec(children, st),
        ir::NodeV::Par(branches) => convert_parallel_spec(branches, st),
        ir::NodeV::Dep(_) => st,
    }
}

/// What lowering a node list does to the converter state, in order.
pub open spec fn convert_list_spec(s: Seq<ir::NodeV>, st: LowerV) -> LowerV
    decreases s, 1int, 0int,
{
    if s.len() == 0 {
        st
    } else {
        convert_node_spec(s.last(), convert_list_spec(s.drop_last(), st))
    }
}

/// What lowering a parallel block does: nothing for zero branches, the
/// sole branch inline for one, and the fork/join/deferred scheme
/// otherwise.
pub open spec fn convert_parallel_spec(bs: Seq<ir::NodeV>, st: LowerV) -> LowerV
    decreases bs, 2int, 0int,
{
    if bs.len() == 0 {
        st
    } else if bs.len() == 1 {
        convert_node_spec(bs[0], st)
    } else {
        let join_label = label_text(st.2);
        let c1 = next_counter(st.2);
        let join_counter = counter_text(c1);
        let labels = branch_labels_spec(bs);
        let m_forks = st.0 + fork_stmts(labels);
        let st1 = convert_node_spec(bs[0], (m_forks, st.1, c1));
        let m_join = st1.0.push(
            StmtV { label: Some(join_label), node: fk::NodeV::Join(Some(join_counter)) },
        );
        defer_fold(bs, 1, (m_join, st1.1, st1.2), labels, join_label)
    }
}

/// Defers the non-first branches in order: each is lowered by a fresh
/// converter sharing the counter, recorded under its label with the
/// shared join as its goto target, its own deferred blocks following.
pub open spec fn defer_fold(
    bs: Seq<ir::NodeV>,
    i: int,
    st: LowerV,
    labels: Seq<Seq<char>>,
    join_label: Seq<char>,
) -> LowerV
    decreases bs, 1int, bs.len() - i,
{
    if i < 1 || i >= bs.len() {
        st
    } else {
        let sub = convert_node_spec(bs[i], (Seq::empty(), Seq::empty(), st.2));
        let new_branch = BranchV { label: labels[i - 1], stmts: sub.0, goto_target: join_label };
        defer_fold(bs, i + 1, (st.0, st.1.push(new_branch) + sub.1, sub.2), labels, join_label)
    }
}

/// Flushing one deferred branch: nothing when it is empty, else its
/// first statement relabeled with the branch label, the rest verbatim,
/// and a trailing goto to its join.
pub open spec fn flush_one(b: BranchV, acc: Seq<StmtV>) -> Seq<StmtV> {
    if b.stmts.len() == 0 {
        acc
    } else {
        (acc.push(StmtV { label: Some(b.label), node: b.stmts[0].node }) + b.stmts.subrange(
            1,
            b.stmts.len() as int,
        )).push(StmtV { label: None, node: fk::NodeV::Goto(b.goto_target) })
    }
}

/// Flushing all deferred branches after the main stream, in order.
pub open spec fn flush_spec(deferred: Seq<BranchV>, acc: Seq<StmtV>) -> Seq<StmtV>
    decreases deferred,
{
    if deferred.len() == 0 {
        acc
    } else {
        flush_one(deferred.last(), flush_spec(deferred.drop_last(), acc))
    }
}

/// The final statement list of one converter state.
pub open spec fn finalize_spec(st: LowerV) -> Seq<StmtV> {
    flush_spec(st.1, st.0)
}

/// The whole lowering of a structured graph: the node list converted by
/// a fresh converter, then the deferred branches flushed.
pub open spec fn lower_spec(g: Seq<ir::NodeV>) -> Seq<StmtV> {
    finalize_spec(convert_list_spec(g, (Seq::empty(), Seq::empty(), 0)))
}

/// Reads the name of the first atomic task under a node.
#[verifier::loop_isolation(false)]
fn first_node_name(node: &ir::Node) -> (r: String)
    ensures
        r@ == first_name(node@),
    decreases node,
{
    broadcast use ir::group_nodes_view;

    match node {
        ir::Node::Atomic(name, _, _) => name.clone(),
        ir::Node::Sequence(children) => {
            if children.len() > 0 {
                proof {
                    assert(decreases_to!(*node => node->Sequence_0));
                    assert(decreases_to!(node->Sequence_0 => node->Sequence_0[0]));
                }
                let r = first_node_name(&children[0]);
                proof {
                    assert(ir::nodes_view(children@)[0] == ir::node_view(children@[0]));
                }
                r
            } else {
                String::from_str("unknown")
            }
        }
        ir::Node::Par(branches) => {
            if branches.len() > 0 {
                proof {
                    assert(decreases_to!(*node => node->Par_0));
                    assert(decreases_to!(node->Par_0 => node->Par_0[0]));
                }
                let r = first_node_name(&branches[0]);
                proof {
                    assert(ir::nodes_view(branches@)[0] == ir::node_view(branches@[0]));
                }
                r
            } else {
                String::from_str("unknown")
            }
        }
        ir::Node::Dep(_) => String::from_str("unknown"),
    }
}

/// Copies one statement.
fn clone_stmt(s: &Stmt) -> (r: Stmt)
    ensures
        r@ == s@,
{
    let label = match &s.label {
        Some(l) => Some(l.clone()),
        None => None,
    };
    Stmt { label, node: fk::clone_node(&s.node) }
}

impl IrToFk {
    /// Lowers a node list in order.
    #[verifier::loop_isolation(false)]
    #[verifier::rlimit(50)]
    fn convert_nodes(&mut self, nodes: &Vec<ir::Node>)
        ensures
            final(self).atoms() == old(self).atoms().add(ir::nodes_atoms(ir::nodes_view(nodes@))),
            final(self).label_counter >= old(self).label_counter,
            final(self).state() == convert_list_spec(ir::nodes_view(nodes@), old(self).state()),
        decreases nodes,
    {
        broadcast use ir::group_nodes_view;

        let ghost a0 = self.atoms();
        let ghost st0 = self.state();
        let ghost nv = ir::nodes_view(nodes@);
        let mut i: usize = 0;
        while i < nodes.len()
            invariant
                i <= nodes.len(),
                self.atoms() == a0.add(ir::nodes_atoms(nv.take(i as int))),
                self.label_counter >= old(self).label_counter,
                self.state() == convert_list_spec(nv.take(i as int), st0),
            decreases nodes.len() - i,
        {
            proof {
                assert(nv.take(i + 1).drop_last() =~= nv.take(i as int));
                assert(nv.take(i + 1).last() == nv[i as int]);
                assert(ir::nodes_view(nodes@)[i as int] == ir::node_view(nodes@[i as int]));
                assert(decreases_to!(*nodes => nodes[i as int]));
            }
            self.convert_node(&nodes[i]);
            proof {
                assert(self.atoms() =~= a0.add(ir::nodes_atoms(nv.take(i + 1))));
            }
            i += 1;
        }
        proof {
            assert(nv.take(nodes@.len() as int) =~= nv);
        }
    }

    /// Lowers one node: an atomic becomes one statement (two when
    /// terminal), a sequence is lowered in order, a parallel block goes
    /// through the fork/join scheme.
    #[verifier::rlimit(50)]
    fn convert_node(&mut self, node: &ir::Node)
        ensures
            final(self).atoms() == old(self).atoms().add(ir::node_atoms(node@)),
            final(self).label_counter >= old(self).label_counter,
            final(self).state() == convert_node_spec(node@, old(self).state()),
        decreases node,
    {
        match node {
            ir::Node::Atomic(name, _, is_terminal) => {
                let ghost before = self.main_stmts@;
                self.main_stmts.push(Stmt::new(None, fk::Node::Atomic(name.clone())));
                proof {
                    fk::lemma_stmts_snoc(self.main_stmts@);
                    assert(self.main_stmts@.drop_last() =~= before);
                    assert(fk::stmt_atoms(self.main_stmts@.last()@) =~= Multiset::empty().insert(
                        name@,
                    ));
                    assert(self.atoms() =~= old(self).atoms().add(ir::node_atoms(node@)));
                    assert(self.main_stmts@.last()@ == (StmtV {
                        label: None,
                        node: fk::NodeV::Atomic(name@),
                    }));
                }
                if *is_terminal {
                    let ghost before_g = self.main_stmts@;
                    self.main_stmts.push(Stmt::new(None, fk::Node::Goto(String::from_str("end"))));
                    proof {
                        fk::lemma_stmts_snoc(self.main_stmts@);
                        assert(self.main_stmts@.drop_last() =~= before_g);
                        assert(fk::stmt_atoms(self.main_stmts@.last()@)
                            =~= Multiset::<Seq<char>>::empty());
                        assert(self.atoms() =~= old(self).atoms().add(ir::node_atoms(node@)));
                        assert(self.main_stmts@.last()@ == (StmtV {
                            label: None,
                            node: fk::NodeV::Goto("end"@),
                        }));
                    }
                }
                proof {
                    assert(self.state() == convert_node_spec(node@, old(self).state()));
                }
            }
            ir::Node::Sequence(children) => {
                proof {
                    assert(decreases_to!(*node => node->Sequence_0));
                }
                self.convert_nodes(children);
            }
            ir::Node::Par(branches) => {
                proof {
                    assert(decreases_to!(*node => node->Par_0));
                }
                self.convert_parallel(branches);
            }
            ir::Node::Dep(_) => {
                proof {
                    assert(old(self).atoms().add(ir::node_atoms(node@)) =~= old(self).atoms());
                }
            }
        }
    }

    /// Lowers a parallel block: forks for every non-first branch, the
    /// first branch inline, a fresh join, and the rest deferred.
    #[verifier::loop_isolation(false)]
    #[verifier::rlimit(100)]
    fn convert_parallel(&mut self, branches: &Vec<ir::Node>)
        ensures
            final(self).atoms() == old(self).atoms().add(
                ir::nodes_atoms(ir::nodes_view(branches@)),
            ),
            final(self).label_counter >= old(self).label_counter,
            final(self).state() == convert_parallel_spec(
                ir::nodes_view(branches@),
                old(self).state(),
            ),
        decreases branches,
    {
        broadcast use ir::group_nodes_view;

        let ghost st0 = self.state();
        let ghost bv = ir::nodes_view(branches@);
        proof {
            assert(ir::nodes_view(branches@).len() == branches@.len());
        }
        if branches.len() == 0 {
            proof {
                assert(old(self).atoms().add(ir::nodes_atoms(bv)) =~= old(self).atoms());
            }
            return;
        }
        if branches.len() == 1 {
            proof {
                assert(decreases_to!(*branches => branches[0]));
                assert(ir::nodes_view(branches@)[0] == ir::node_view(branches@[0]));
            }
            self.convert_node(&branches[0]);
            proof {
                assert(bv.len() == 1);
                assert(bv.drop_last() =~= Seq::<ir::NodeV>::empty());
                assert(bv.last() == bv[0]);
                assert(ir::nodes_atoms(bv.drop_last()) =~= Multiset::<Seq<char>>::empty());
                assert(ir::nodes_atoms(bv) =~= Multiset::<Seq<char>>::empty().add(
                    ir::node_atoms(bv[0]),
                ));
                assert(ir::nodes_atoms(bv) =~= ir::node_atoms(bv[0]));
                assert(self.atoms() =~= old(self).atoms().add(ir::nodes_atoms(bv)));
            }
            return;
        }

        let join_label = self.new_label();
        let ghost c1 = next_counter(st0.2);
        let mut join_counter = String::from_str("c");
        join_counter.append(text::usize_to_string(self.label_counter).as_str());
        proof {
            reveal_strlit("c");
            assert(join_counter@ =~= counter_text(c1));
        }

        let mut branch_labels: Vec<String> = Vec::new();
        let mut k: usize = 1;
        while k < branches.len()
            invariant
                1 <= k <= branches.len(),
                branch_labels@.len() == k - 1,
                self.atoms() == old(self).atoms(),
                self.label_counter >= old(self).label_counter,
                forall|j: int|
                    0 <= j < k - 1 ==> branch_labels.deep_view()[j] == branch_labels_spec(bv)[j],
            decreases branches.len() - k,
        {
            let mut label = String::from_str("L");
            label.append(first_node_name(&branches[k]).as_str());
            proof {
                reveal_strlit("L");
                assert(ir::nodes_view(branches@)[k as int] == ir::node_view(branches@[k as int]));
                assert(label@ =~= seq!['L'] + first_name(bv[k as int]));
            }
            branch_labels.push(label);
            k += 1;
        }
        let ghost labels_v = branch_labels.deep_view();
        proof {
            assert(labels_v =~= branch_labels_spec(bv));
        }

        let ghost a_forks = self.atoms();
        let ghost m_base = fk::stmts_view(self.main_stmts@);
        let ghost d_base = branches_view(self.deferred_branches@);
        let mut f: usize = 0;
        while f < branch_labels.len()
            invariant
                f <= branch_labels.len(),
                self.atoms() == a_forks,
                self.label_counter >= old(self).label_counter,
                self.label_counter as nat == c1,
                branches_view(self.deferred_branches@) == d_base,
                fk::stmts_view(self.main_stmts@) =~= m_base + fork_stmts(labels_v).take(f as int),
            decreases branch_labels.len() - f,
        {
            let ghost before = self.main_stmts@;
            self.main_stmts.push(Stmt::new(None, fk::Node::Fork(branch_labels[f].clone())));
            proof {
                fk::lemma_stmts_snoc(self.main_stmts@);
                assert(self.main_stmts@.drop_last() =~= before);
                assert(fk::stmt_atoms(self.main_stmts@.last()@)
                    =~= Multiset::<Seq<char>>::empty());
                assert(self.atoms() =~= a_forks);
                assert(self.main_stmts@.last()@ == fork_stmts(labels_v)[f as int]);
                assert(fk::stmts_view(self.main_stmts@) =~= m_base + fork_stmts(labels_v).take(
                    f + 1,
                ));
            }
            f += 1;
        }
        proof {
            assert(fork_stmts(labels_v).take(branch_labels@.len() as int) =~= fork_stmts(
                labels_v,
            ));
            assert(fk::stmts_view(self.main_stmts@) =~= st0.0 + fork_stmts(
                branch_labels_spec(bv),
            ));
            assert(self.state() == (st0.0 + fork_stmts(branch_labels_spec(bv)), st0.1, c1));
        }

        proof {
            assert(decreases_to!(*branches => branches[0]));
            assert(ir::nodes_view(branches@)[0] == ir::node_view(branches@[0]));
        }
        self.convert_node(&branches[0]);
        let ghost a_first = self.atoms();
        let ghost st1 = self.state();
        proof {
            assert(st1 == convert_node_spec(
                bv[0],
                (st0.0 + fork_stmts(branch_labels_spec(bv)), st0.1, c1),
            ));
        }

        let ghost before_join = self.main_stmts@;
        self.main_stmts.push(
            Stmt::new(Some(join_label.clone()), fk::Node::Join(Some(join_counter))),
        );
        proof {
            fk::lemma_stmts_snoc(self.main_stmts@);
            assert(self.main_stmts@.drop_last() =~= before_join);
            assert(fk::stmt_atoms(self.main_stmts@.last()@) =~= Multiset::<Seq<char>>::empty());
            assert(self.atoms() =~= a_first);
            assert(self.main_stmts@.last()@ == (StmtV {
                label: Some(label_text(st0.2)),
                node: fk::NodeV::Join(Some(counter_text(c1))),
            }));
        }
        let ghost st_join = self.state();
        proof {
            assert(st_join == (
                st1.0.push(
                    StmtV {
                        label: Some(label_text(st0.2)),
                        node: fk::NodeV::Join(Some(counter_text(c1))),
                    },
                ),
                st1.1,
                st1.2,
            ));
        }
        let ghost target = defer_fold(bv, 1, st_join, labels_v, label_text(st0.2));

        let mut i: usize = 1;
        while i < branches.len()
            invariant
                1 <= i <= branches.len(),
                branch_labels@.len() == branches@.len() - 1,
                self.atoms() == a_first.add(ir::nodes_atoms(bv.subrange(1, i as int))),
                self.label_counter >= old(self).label_counter,
                target == defer_fold(bv, i as int, self.state(), labels_v, label_text(st0.2)),
            decreases branches.len() - i,
        {
            proof {
                assert(bv.subrange(1, i + 1).drop_last() =~= bv.subrange(1, i as int));
                assert(bv.subrange(1, i + 1).last() == bv[i as int]);
                assert(ir::nodes_view(branches@)[i as int] == ir::node_view(branches@[i as int]));
                assert(decreases_to!(*branches => branches[i as int]));
            }
            let ghost cur = self.state();
            let mut branch_conv = IrToFk::new();
            branch_conv.label_counter = self.label_counter;
            proof {
                assert(branch_conv.atoms() =~= Multiset::<Seq<char>>::empty());
                assert(branch_conv.state() == (
                    Seq::<StmtV>::empty(),
                    Seq::<BranchV>::empty(),
                    cur.2,
                ));
            }
            branch_conv.convert_node(&branches[i]);
            let ghost sub_spec = convert_node_spec(
                bv[i as int],
                (Seq::<StmtV>::empty(), Seq::<BranchV>::empty(), cur.2),
            );
            proof {
                assert(branch_conv.state() == sub_spec);
            }
            self.label_counter = branch_conv.label_counter;

            let ghost conv_atoms = branch_conv.atoms();
            let ghost d0 = self.deferred_branches@;
            let ghost conv_main = fk::stmts_view(branch_conv.main_stmts@);
            let ghost conv_deferred = branches_view(branch_conv.deferred_branches@);
            let new_branch = Branch {
                label: branch_labels[i - 1].clone(),
                stmts: branch_conv.main_stmts,
                goto_target: join_label.clone(),
            };
            self.deferred_branches.push(new_branch);
            proof {
                assert(self.deferred_branches@.drop_last() =~= d0);
                assert(branches_view(self.deferred_branches@) == branches_view(d0).push(
                    self.deferred_branches@.last()@,
                ));
                let q = branches_view(d0);
                let y = self.deferred_branches@.last()@;
                assert((q.push(y)).drop_last() =~= q);
                assert((q.push(y)).last() == y);
                assert(y.stmts == conv_main);
                assert(branches_atoms(branches_view(self.deferred_branches@))
                    =~= branches_atoms(branches_view(d0)).add(fk::stmts_atoms(conv_main)));
            }
            let ghost d1 = self.deferred_branches@;
            let mut rest = branch_conv.deferred_branches;
            let ghost rest_v = rest@;
            self.deferred_branches.append(&mut rest);
            proof {
                assert(self.deferred_branches@ == d1 + rest_v);
                lemma_branches_view_concat(d1, rest_v);
                lemma_branches_atoms_concat(branches_view(d1), branches_view(rest_v));
                assert(branches_view(rest_v) == conv_deferred);
                assert(conv_atoms =~= ir::node_atoms(bv[i as int]));
                assert(branches_atoms(branches_view(self.deferred_branches@))
                    =~= branches_atoms(branches_view(d0)).add(conv_atoms));
                assert(ir::nodes_atoms(bv.subrange(1, i + 1)) =~= ir::nodes_atoms(
                    bv.subrange(1, i as int),
                ).add(ir::node_atoms(bv[i as int])));
                assert(fk::stmts_atoms(fk::stmts_view(self.main_stmts@)).add(
                    branches_atoms(branches_view(d0)),
                ) =~= a_first.add(ir::nodes_atoms(bv.subrange(1, i as int))));
                assert(self.atoms() == fk::stmts_atoms(fk::stmts_view(self.main_stmts@)).add(
                    branches_atoms(branches_view(self.deferred_branches@)),
                ));
                let m = fk::stmts_atoms(fk::stmts_view(self.main_stmts@));
                let bd0 = branches_atoms(branches_view(d0));
                let na_i = ir::nodes_atoms(bv.subrange(1, i as int));
                let step = ir::node_atoms(bv[i as int]);
                assert(m.add(bd0.add(conv_atoms)) =~= m.add(bd0).add(conv_atoms));
                assert(self.atoms() == m.add(bd0.add(conv_atoms)));
                assert(a_first.add(na_i.add(step)) =~= a_first.add(na_i).add(step));
                assert(m.add(bd0).add(conv_atoms) == a_first.add(na_i).add(step));
                assert(self.atoms() =~= a_first.add(ir::nodes_atoms(bv.subrange(1, i + 1))));
                assert(self.state().1 =~= cur.1.push(
                    BranchV { label: labels_v[i - 1], stmts: conv_main, goto_target: label_text(st0.2) },
                ) + conv_deferred);
                assert(self.state() == (
                    cur.0,
                    cur.1.push(
                        BranchV {
                            label: labels_v[i - 1],
                            stmts: conv_main,
                            goto_target: label_text(st0.2),
                        },
                    ) + conv_deferred,
                    sub_spec.2,
                ));
                assert(target == defer_fold(bv, i + 1, self.state(), labels_v, label_text(st0.2)));
            }
            i += 1;
        }
        proof {
            let rest = bv.subrange(1, bv.len() as int);
            assert(bv =~= seq![bv[0]] + rest);
            lemma_ir_atoms_concat(seq![bv[0]], rest);
            assert(seq![bv[0]].drop_last() =~= Seq::<ir::NodeV>::empty());
            assert(seq![bv[0]].last() == bv[0]);
            assert(ir::nodes_atoms(Seq::<ir::NodeV>::empty())
                =~= Multiset::<Seq<char>>::empty());
            assert(ir::nodes_atoms(seq![bv[0]]) =~= ir::node_atoms(bv[0]));
            assert(self.atoms() =~= old(self).atoms().add(ir::nodes_atoms(bv)));
            assert(target == defer_fold(
                bv,
                branches@.len() as int,
                self.state(),
                labels_v,
                label_text(st0.2),
            ));
            assert(target == self.state());
            assert(self.state() == convert_parallel_spec(bv, st0));
        }
    }

    /// Flushes the deferred branches after the main stream: each
    /// non-empty branch gets its label on its first statement and a
    /// trailing goto to its join.
    #[verifier::loop_isolation(false)]
    #[verifier::rlimit(80)]
    fn finalize(self) -> (r: fk::Graph)
        ensures
            fk::stmts_atoms(r@) == self.atoms(),
            r@ == finalize_spec(self.state()),
    {
        broadcast use lemma_branches_view_len;
        broadcast use lemma_branches_view_index;
        broadcast use fk::group_stmts_view;

        let IrToFk { main_stmts, deferred_branches, label_counter: _ } = self;
        let ghost main_v = fk::stmts_view(main_stmts@);
        let ghost dbv = branches_view(deferred_branches@);
        proof {
            assert(branches_view(deferred_branches@).len() == deferred_branches@.len());
        }
        let mut result = main_stmts;
        let mut i: usize = 0;
        while i < deferred_branches.len()
            invariant
                i <= deferred_branches.len(),
                fk::stmts_atoms(fk::stmts_view(result@)) == fk::stmts_atoms(main_v).add(
                    branches_atoms(dbv.take(i as int)),
                ),
                fk::stmts_view(result@) == flush_spec(dbv.take(i as int), main_v),
            decreases deferred_branches.len() - i,
        {
            proof {
                assert(dbv.take(i + 1).drop_last() =~= dbv.take(i as int));
                assert(dbv.take(i + 1).last() == dbv[i as int]);
                lemma_branches_view_index(deferred_branches@, i as int);
            }
            let branch = &deferred_branches[i];
            let ghost sv = fk::stmts_view(branch.stmts@);
            proof {
                assert(fk::stmts_view(branch.stmts@).len() == branch.stmts@.len());
            }
            if branch.stmts.len() > 0 {
                let ghost r0 = fk::stmts_view(result@);
                let ghost before = result@;
                result.push(
                    Stmt::new(Some(branch.label.clone()), fk::clone_node(&branch.stmts[0].node)),
                );
                proof {
                    fk::lemma_stmts_snoc(result@);
                    assert(result@.drop_last() =~= before);
                    assert(fk::stmts_view(branch.stmts@)[0] == branch.stmts@[0]@) by {
                        fk::lemma_stmts_view_index(branch.stmts@, 0);
                    }
                    assert(result@.last()@ == (StmtV {
                        label: Some(dbv[i as int].label),
                        node: dbv[i as int].stmts[0].node,
                    }));
                    assert(fk::stmt_atoms(result@.last()@) =~= fk::stmt_atoms(sv[0]));
                    assert(fk::stmts_atoms(fk::stmts_view(result@)) =~= fk::stmts_atoms(r0).add(
                        fk::stmt_atoms(sv[0]),
                    ));
                    assert(sv.take(1).drop_last() =~= Seq::<StmtV>::empty());
                    assert(sv.take(1).last() == sv[0]);
                    assert(fk::stmts_atoms(sv.take(1).drop_last())
                        =~= Multiset::<Seq<char>>::empty());
                    assert(fk::stmts_atoms(sv.take(1)) =~= fk::stmt_atoms(sv[0]));
                }
                let mut k: usize = 1;
                while k < branch.stmts.len()
                    invariant
                        1 <= k <= branch.stmts.len(),
                        sv == fk::stmts_view(branch.stmts@),
                        fk::stmts_atoms(fk::stmts_view(result@)) == fk::stmts_atoms(r0).add(
                            fk::stmts_atoms(sv.take(k as int)),
                        ),
                        fk::stmts_view(result@) =~= r0.push(
                            StmtV { label: Some(dbv[i as int].label), node: sv[0].node },
                        ) + sv.subrange(1, k as int),
                    decreases branch.stmts.len() - k,
                {
                    proof {
                        assert(sv.take(k + 1).drop_last() =~= sv.take(k as int));
                        assert(sv.take(k + 1).last() == sv[k as int]);
                        fk::lemma_stmts_view_index(branch.stmts@, k as int);
                    }
                    let ghost before_k = result@;
                    result.push(clone_stmt(&branch.stmts[k]));
                    proof {
                        fk::lemma_stmts_snoc(result@);
                        assert(result@.drop_last() =~= before_k);
                        assert(fk::stmt_atoms(result@.last()@) =~= fk::stmt_atoms(sv[k as int]));
                        assert(fk::stmts_atoms(fk::stmts_view(result@)) =~= fk::stmts_atoms(
                            r0,
                        ).add(fk::stmts_atoms(sv.take(k + 1))));
                        assert(result@.last()@ == sv[k as int]);
                        assert(sv.subrange(1, k + 1) =~= sv.subrange(1, k as int).push(
                            sv[k as int],
                        ));
                        assert(fk::stmts_view(result@) =~= r0.push(
                            StmtV { label: Some(dbv[i as int].label), node: sv[0].node },
                        ) + sv.subrange(1, k + 1));
                    }
                    k += 1;
                }
                proof {
                    assert(sv.take(sv.len() as int) =~= sv);
                    assert(sv.take(1).drop_last() =~= Seq::<StmtV>::empty());
                    assert(fk::stmts_atoms(sv.take(1)) =~= fk::stmt_atoms(sv[0]));
                }
                let ghost before_g = result@;
                result.push(Stmt::new(None, fk::Node::Goto(branch.goto_target.clone())));
                proof {
                    fk::lemma_stmts_snoc(result@);
                    assert(result@.drop_last() =~= before_g);
                    assert(fk::stmt_atoms(result@.last()@) =~= Multiset::<Seq<char>>::empty());
                    assert(fk::stmts_atoms(fk::stmts_view(result@)) =~= fk::stmts_atoms(
                        main_v,
                    ).add(branches_atoms(dbv.take(i + 1))));
                    assert(result@.last()@ == (StmtV {
                        label: None,
                        node: fk::NodeV::Goto(dbv[i as int].goto_target),
                    }));
                    assert(sv.subrange(1, sv.len() as int) =~= dbv[i as int].stmts.subrange(
                        1,
                        dbv[i as int].stmts.len() as int,
                    ));
                    assert(fk::stmts_view(result@) =~= flush_one(dbv[i as int], r0));
                    assert(fk::stmts_view(result@) =~= flush_spec(dbv.take(i + 1), main_v));
                }
            } else {
                proof {
                    assert(sv =~= Seq::<StmtV>::empty());
                    assert(fk::stmts_atoms(fk::stmts_view(result@)) =~= fk::stmts_atoms(
                        main_v,
                    ).add(branches_atoms(dbv.take(i + 1))));
                    assert(dbv[i as int].stmts.len() == 0);
                    assert(fk::stmts_view(result@) =~= flush_spec(dbv.take(i + 1), main_v));
                }
            }
            i += 1;
        }
        proof {
            assert(dbv.take(deferred_branches@.len() as int) =~= dbv);
            assert(fk::stmts_view(result@) == flush_spec(dbv, main_v));
        }
        fk::Graph::new(result)
    }
}

broadcast proof fn lemma_branches_view_len(s: Seq<Branch>)
    ensures
        #[trigger] branches_view(s).len() == s.len(),
    decreases s,
{
    if s.len() != 0 {
        lemma_branches_view_len(s.drop_last());
    }
}

broadcast proof fn lemma_branches_view_index(s: Seq<Branch>, i: int)
    requires
        0 <= i < s.len(),
    ensures
        #[trigger] branches_view(s)[i] == s[i]@,
    decreases s,
{
    lemma_branches_view_len(s);
    if i < s.len() - 1 {
        lemma_branches_view_index(s.drop_last(), i);
    }
}

/// Lowers a whole structured graph to Fork-Join code.  Every atomic-task
/// name of the input appears in the output exactly as often; dependency
/// annotations and terminal markers are deliberately dropped.
pub fn from_ir(ir_graph: &ir::Graph) -> (r: fk::Graph)
    ensures
        fk::stmts_atoms(r@) == ir::nodes_atoms(ir_graph@),
        r@ == lower_spec(ir_graph@),
{
    let mut conv = IrToFk::new();
    conv.convert_nodes(&ir_graph.0);
    let r = conv.finalize();
    proof {
        assert(fk::stmts_atoms(r@) =~= ir::nodes_atoms(ir_graph@));
    }
    r
}


impl ir::Graph {
    /// Lowers this graph to Fork-Join code; see [`from_ir`].
    pub fn to_fk(&self) -> (r: fk::Graph)
        ensures
            fk::stmts_atoms(r@) == ir::nodes_atoms(self@),
            r@ == lower_spec(self@),
    {
        from_ir(self)
    }
}


impl fk::Graph {
    /// Lowers a structured graph to Fork-Join code; see [`from_ir`].
    pub fn from_ir(ir_graph: &ir::Graph) -> (r: fk::Graph)
        ensures
            fk::stmts_atoms(r@) == ir::nodes_atoms(ir_graph@),
            r@ == lower_spec(ir_graph@),
    {
        from_ir(ir_graph)
    }
}

} // verus!
