//! The Fork-Join control-flow graph and the structuring pass that
//! recovers a nested parallel/sequential tree from it.
//!
//! Statements are addressed by their index into the original list; labels
//! resolve to indices, a later duplicate label winning.  Structuring is a
//! guarded walk: a shared visited set stops revisits, and a step budget
//! bounds every loop and recursion so that malformed input degrades to a
//! partial tree instead of looping.

use vstd::prelude::*;

verus! {

use vstd::set::Set;

use crate::fk;
use crate::fk::NodeV;
use crate::ir;
use crate::text;

/// The set of atomic-instruction names in an instruction list.
pub open spec fn node_name_set(nodes: Seq<NodeV>) -> Set<Seq<char>>
    decreases nodes,
{
    if nodes.len() == 0 {
        Set::empty()
    } else {
        node_name_set(nodes.drop_last()).union(
            match nodes.last() {
                NodeV::Atomic(name) => Set::empty().insert(name),
                _ => Set::empty(),
            },
        )
    }
}

proof fn lemma_node_name_set_index(nodes: Seq<NodeV>, i: int)
    requires
        0 <= i < nodes.len(),
        nodes[i] is Atomic,
    ensures
        node_name_set(nodes).contains(nodes[i]->Atomic_0),
    decreases nodes,
{
    if i == nodes.len() - 1 {
    } else {
        lemma_node_name_set_index(nodes.drop_last(), i);
    }
}

/// Mathematical mirror of [`Region`].
pub enum RegionV {
    Atomic(Seq<char>),
    Sequence(Seq<RegionV>),
    Parallel(Seq<RegionV>),
}

/// A recovered region: one atomic task, a run of regions in sequence, or
/// parallel branches.
enum Region {
    Atomic { name: String },
    Sequence { regions: Vec<Region> },
    Parallel { branches: Vec<Region> },
}

spec fn region_view(r: Region) -> RegionV
    decreases r,
{
    match r {
        Region::Atomic { name } => RegionV::Atomic(name@),
        Region::Sequence { regions } => RegionV::Sequence(regions_view(regions@)),
        Region::Parallel { branches } => RegionV::Parallel(regions_view(branches@)),
    }
}

spec fn regions_view(s: Seq<Region>) -> Seq<RegionV>
    decreases s,
{
    if s.len() == 0 {
        Seq::empty()
    } else {
        regions_view(s.drop_last()).push(region_view(s.last()))
    }
}

impl View for Region {
    type V = RegionV;

    closed spec fn view(&self) -> RegionV {
        region_view(*self)
    }
}

broadcast proof fn lemma_regions_view_len(s: Seq<Region>)
    ensures
        #[trigger] regions_view(s).len() == s.len(),
    decreases s,
{
    if s.len() != 0 {
        lemma_regions_view_len(s.drop_last());
    }
}

broadcast proof fn lemma_regions_view_index(s: Seq<Region>, i: int)
    requires
        0 <= i < s.len(),
    ensures
        #[trigger] regions_view(s)[i] == region_view(s[i]),
    decreases s,
{
    lemma_regions_view_len(s);
    if i < s.len() - 1 {
        lemma_regions_view_index(s.drop_last(), i);
    }
}

/// The atomic names under one region.
pub open spec fn region_names(r: RegionV) -> Set<Seq<char>>
    decreases r,
{
    match r {
        RegionV::Atomic(name) => Set::empty().insert(name),
        RegionV::Sequence(rs) => regions_names(rs),
        RegionV::Parallel(bs) => regions_names(bs),
    }
}

pub open spec fn regions_names(s: Seq<RegionV>) -> Set<Seq<char>>
    decreases s,
{
    if s.len() == 0 {
        Set::empty()
    } else {
        regions_names(s.drop_last()).union(region_names(s.last()))
    }
}

/// A region with no content at its top level.
pub open spec fn region_is_empty(r: RegionV) -> bool {
    match r {
        RegionV::Atomic(_) => false,
        RegionV::Sequence(rs) => rs.len() == 0,
        RegionV::Parallel(bs) => bs.len() == 0,
    }
}

/// The reduction invariant: no sequence inside the tree carries exactly
/// one child.
pub open spec fn region_reduced(r: RegionV) -> bool
    decreases r,
{
    match r {
        RegionV::Atomic(_) => true,
        RegionV::Sequence(rs) => rs.len() != 1 && regions_reduced(rs),
        RegionV::Parallel(bs) => regions_reduced(bs),
    }
}

pub open spec fn regions_reduced(s: Seq<RegionV>) -> bool
    decreases s,
{
    s.len() == 0 || (regions_reduced(s.drop_last()) && region_reduced(s.last()))
}

/// Copies one region.
#[verifier::loop_isolation(false)]
fn clone_region(r: &Region) -> (c: Region)
    ensures
        c@ == r@,
    decreases r,
{
    broadcast use lemma_regions_view_len, lemma_regions_view_index;

    match r {
        Region::Atomic { name } => Region::Atomic { name: name.clone() },
        Region::Sequence { regions } => {
            let mut out: Vec<Region> = Vec::new();
            let mut i: usize = 0;
            while i < regions.len()
                invariant
                    i <= regions.len(),
                    out@.len() == i,
                    forall|j: int| 0 <= j < i ==> out@[j]@ == regions@[j]@,
                decreases regions.len() - i,
            {
                proof {
                    assert(decreases_to!(*r => r->Sequence_regions));
                    assert(decreases_to!(r->Sequence_regions => r->Sequence_regions[i as int]));
                }
                let c = clone_region(&regions[i]);
                out.push(c);
                i += 1;
            }
            proof {
                assert(regions_view(out@) =~= regions_view(regions@)) by {
                    lemma_regions_view_pointwise(out@, regions@);
                }
            }
            Region::Sequence { regions: out }
        }
        Region::Parallel { branches } => {
            let mut out: Vec<Region> = Vec::new();
            let mut i: usize = 0;
            while i < branches.len()
                invariant
                    i <= branches.len(),
                    out@.len() == i,
                    forall|j: int| 0 <= j < i ==> out@[j]@ == branches@[j]@,
                decreases branches.len() - i,
            {
                proof {
                    assert(decreases_to!(*r => r->Parallel_branches));
                    assert(decreases_to!(r->Parallel_branches => r->Parallel_branches[i as int]));
                }
                let c = clone_region(&branches[i]);
                out.push(c);
                i += 1;
            }
            proof {
                assert(regions_view(out@) =~= regions_view(branches@)) by {
                    lemma_regions_view_pointwise(out@, branches@);
                }
            }
            Region::Parallel { branches: out }
        }
    }
}

/// Two region lists with element-wise equal views have equal views.
proof fn lemma_regions_view_pointwise(a: Seq<Region>, b: Seq<Region>)
    requires
        a.len() == b.len(),
        forall|j: int| 0 <= j < a.len() ==> a[j]@ == b[j]@,
    ensures
        regions_view(a) == regions_view(b),
    decreases a,
{
    if a.len() != 0 {
        lemma_regions_view_pointwise(a.drop_last(), b.drop_last());
        assert(regions_view(a) =~= regions_view(b));
    }
}

/// Names of one element belong to the list's name set.
proof fn lemma_regions_names_index(s: Seq<RegionV>, i: int)
    requires
        0 <= i < s.len(),
    ensures
        region_names(s[i]).subset_of(regions_names(s)),
    decreases s,
{
    if i == s.len() - 1 {
    } else {
        lemma_regions_names_index(s.drop_last(), i);
    }
}

impl Region {
    /// Whether this region has no content at its top level.
    fn is_empty(&self) -> (r: bool)
        ensures
            r == region_is_empty(self@),
    {
        broadcast use lemma_regions_view_len;

        match self {
            Region::Sequence { regions } => regions.len() == 0,
            Region::Parallel { branches } => branches.len() == 0,
            Region::Atomic { .. } => false,
        }
    }

    /// Builds a sequence region: nested sequences are flattened one
    /// level, empty regions are dropped, and a result of zero or one
    /// survivors collapses to the empty sequence or the sole survivor.
    #[verifier::loop_isolation(false)]
    #[verifier::rlimit(80)]
    fn sequence(regions: Vec<Region>) -> (r: Region)
        ensures
            region_names(r@).subset_of(regions_names(regions_view(regions@))),
            regions_reduced(regions_view(regions@)) ==> region_reduced(r@),
            r@ == seq_collapse(regions_view(regions@)),
    {
        broadcast use lemma_regions_view_len, lemma_regions_view_index;

        let ghost inv = regions_view(regions@);
        let mut flat: Vec<Region> = Vec::new();
        let mut i: usize = 0;
        while i < regions.len()
            invariant
                i <= regions.len(),
                regions_names(regions_view(flat@)).subset_of(regions_names(inv)),
                regions_reduced(inv) ==> regions_reduced(regions_view(flat@)),
                forall|j: int|
                    0 <= j < flat@.len() ==> !region_is_empty(
                        #[trigger] regions_view(flat@)[j],
                    ),
                regions_view(flat@) == flatten_regions(inv.take(i as int)),
            decreases regions.len() - i,
        {
            proof {
                lemma_regions_names_index(inv, i as int);
                if regions_reduced(inv) {
                    lemma_regions_reduced_index(inv, i as int);
                }
                assert(inv.take(i + 1).drop_last() =~= inv.take(i as int));
                assert(inv.take(i + 1).last() == inv[i as int]);
            }
            match &regions[i] {
                Region::Sequence { regions: inner } => {
                    let ghost iv = regions_view(inner@);
                    proof {
                        assert(flatten_one(inv[i as int]) == iv);
                    }
                    let mut k: usize = 0;
                    while k < inner.len()
                        invariant
                            k <= inner.len(),
                            regions_names(regions_view(flat@)).subset_of(regions_names(inv)),
                            regions_reduced(inv) ==> regions_reduced(regions_view(flat@)),
                            forall|j: int|
                                0 <= j < flat@.len() ==> !region_is_empty(
                                    #[trigger] regions_view(flat@)[j],
                                ),
                            regions_view(flat@) == flatten_regions(inv.take(i as int))
                                + keep_nonempty(iv.take(k as int)),
                        decreases inner.len() - k,
                    {
                        proof {
                            lemma_regions_names_index(iv, k as int);
                            if regions_reduced(inv) {
                                lemma_regions_reduced_index(iv, k as int);
                            }
                            assert(iv.take(k + 1).drop_last() =~= iv.take(k as int));
                            assert(iv.take(k + 1).last() == iv[k as int]);
                        }
                        if !inner[k].is_empty() {
                            let ghost f0 = flat@;
                            let c = clone_region(&inner[k]);
                            flat.push(c);
                            proof {
                                assert(flat@.drop_last() =~= f0);
                                lemma_regions_push(f0, flat@);
                                assert(regions_view(flat@) =~= flatten_regions(inv.take(
                                    i as int,
                                )) + keep_nonempty(iv.take(k + 1)));
                            }
                        } else {
                            proof {
                                assert(regions_view(flat@) =~= flatten_regions(inv.take(
                                    i as int,
                                )) + keep_nonempty(iv.take(k + 1)));
                            }
                        }
                        k += 1;
                    }
                    proof {
                        assert(iv.take(inner@.len() as int) =~= iv);
                        assert(regions_view(flat@) =~= flatten_regions(inv.take(i + 1)));
                    }
                }
                _ => {
                    proof {
                        assert(flatten_one(inv[i as int]) == seq![inv[i as int]]);
                        assert(seq![inv[i as int]].drop_last() =~= Seq::<RegionV>::empty());
                        assert(seq![inv[i as int]].last() == inv[i as int]);
                        assert(keep_nonempty(Seq::<RegionV>::empty()) =~= Seq::<
                            RegionV,
                        >::empty());
                    }
                    if !regions[i].is_empty() {
                        let ghost f0 = flat@;
                        let c = clone_region(&regions[i]);
                        flat.push(c);
                        proof {
                            assert(flat@.drop_last() =~= f0);
                            lemma_regions_push(f0, flat@);
                            assert(regions_view(flat@) =~= flatten_regions(inv.take(i + 1)));
                        }
                    } else {
                        proof {
                            assert(regions_view(flat@) =~= flatten_regions(inv.take(i + 1)));
                        }
                    }
                }
            }
            i += 1;
        }
        proof {
            assert(inv.take(regions@.len() as int) =~= inv);
        }
        if flat.len() == 0 {
            let r = Region::Sequence { regions: flat };
            proof {
                assert(flatten_regions(inv) =~= Seq::<RegionV>::empty());
                assert(r@ == seq_collapse(inv));
            }
            r
        } else if flat.len() == 1 {
            let mut flat = flat;
            let sole = match flat.pop() {
                Some(r) => r,
                None => Region::Sequence { regions: Vec::new() },
            };
            proof {
                assert(regions_view(flat@.push(sole))[0] == sole@);
                lemma_regions_names_index(regions_view(flat@.push(sole)), 0);
                assert(sole@ == flatten_regions(inv)[0]);
                assert(sole@ == seq_collapse(inv));
            }
            sole
        } else {
            let r = Region::Sequence { regions: flat };
            proof {
                assert(r@ == seq_collapse(inv));
            }
            r
        }
    }
}

/// One more element on the end of a region list: names and reduction
/// bookkeeping.
proof fn lemma_regions_push(before: Seq<Region>, after: Seq<Region>)
    requires
        after.len() == before.len() + 1,
        after.drop_last() == before,
    ensures
        regions_view(after) == regions_view(before).push(after.last()@),
        regions_names(regions_view(after)) == regions_names(regions_view(before)).union(
            region_names(after.last()@),
        ),
        regions_reduced(regions_view(after)) == (regions_reduced(regions_view(before))
            && region_reduced(after.last()@)),
        forall|j: int|
            0 <= j < before.len() ==> #[trigger] regions_view(after)[j] == regions_view(before)[j],
{
    broadcast use lemma_regions_view_len, lemma_regions_view_index;

    let va = regions_view(after);
    let vb = regions_view(before);
    assert(va.drop_last() =~= vb);
    assert(va.last() == after.last()@);
}

/// Reduction of a list covers each element.
proof fn lemma_regions_reduced_index(s: Seq<RegionV>, i: int)
    requires
        0 <= i < s.len(),
        regions_reduced(s),
    ensures
        region_reduced(s[i]),
    decreases s,
{
    if i == s.len() - 1 {
    } else {
        lemma_regions_reduced_index(s.drop_last(), i);
    }
}


/// The instruction of each statement, in order.
pub open spec fn stmts_nodes(s: Seq<fk::StmtV>) -> Seq<NodeV>
    decreases s,
{
    if s.len() == 0 {
        Seq::empty()
    } else {
        stmts_nodes(s.drop_last()).push(s.last().node)
    }
}

pub broadcast proof fn lemma_stmts_nodes_len(s: Seq<fk::StmtV>)
    ensures
        #[trigger] stmts_nodes(s).len() == s.len(),
    decreases s,
{
    if s.len() != 0 {
        lemma_stmts_nodes_len(s.drop_last());
    }
}

pub broadcast proof fn lemma_stmts_nodes_index(s: Seq<fk::StmtV>, i: int)
    requires
        0 <= i < s.len(),
    ensures
        #[trigger] stmts_nodes(s)[i] == s[i].node,
    decreases s,
{
    lemma_stmts_nodes_len(s);
    if i < s.len() - 1 {
        lemma_stmts_nodes_index(s.drop_last(), i);
    }
}

pub broadcast group group_stmts_nodes {
    lemma_stmts_nodes_len,
    lemma_stmts_nodes_index,
}

/// The label bindings a statement list makes, in order.
pub open spec fn labels_of(s: Seq<fk::StmtV>) -> Seq<(Seq<char>, usize)>
    decreases s,
{
    if s.len() == 0 {
        Seq::empty()
    } else {
        labels_of(s.drop_last()) + (match s.last().label {
            Some(l) => seq![(l, (s.len() - 1) as usize)],
            None => Seq::empty(),
        })
    }
}

/// Resolves a label name; a later duplicate binding wins.
pub open spec fn label_get(labels: Seq<(Seq<char>, usize)>, name: Seq<char>) -> Option<usize>
    decreases labels,
{
    if labels.len() == 0 {
        None
    } else if labels.last().0 == name {
        Some(labels.last().1)
    } else {
        label_get(labels.drop_last(), name)
    }
}

/// The outgoing edges of the statement at one index: a resolving goto has
/// one edge, a fork up to two (resolved target and fall-through), atomics
/// and joins fall through; `goto end` and unresolved targets have none.
pub open spec fn edge_targets(
    nodes: Seq<NodeV>,
    labels: Seq<(Seq<char>, usize)>,
    i: int,
) -> Seq<(usize, usize)> {
    match nodes[i] {
        NodeV::Goto(t) => if t != "end"@ && label_get(labels, t) is Some {
            seq![((i as usize), label_get(labels, t)->Some_0)]
        } else {
            Seq::empty()
        },
        NodeV::Fork(t) => (if label_get(labels, t) is Some {
            seq![((i as usize), label_get(labels, t)->Some_0)]
        } else {
            Seq::empty()
        }) + (if i + 1 < nodes.len() {
            seq![((i as usize), (i + 1) as usize)]
        } else {
            Seq::empty()
        }),
        _ => if i + 1 < nodes.len() {
            seq![((i as usize), (i + 1) as usize)]
        } else {
            Seq::empty()
        },
    }
}

/// All edges of the first `n` statements, in statement order.
pub open spec fn edges_of(
    nodes: Seq<NodeV>,
    labels: Seq<(Seq<char>, usize)>,
    n: int,
) -> Seq<(usize, usize)>
    decreases n,
{
    if n <= 0 {
        Seq::empty()
    } else {
        edges_of(nodes, labels, n - 1) + edge_targets(nodes, labels, n - 1)
    }
}

/// All-false visit flags for a program of one length.
pub open spec fn fresh_flags(n: nat) -> Seq<bool> {
    Seq::new(n, |i: int| false)
}

/// Marks one statement index visited; out-of-range indices are ignored.
pub open spec fn set_flag(flags: Seq<bool>, i: int) -> Seq<bool> {
    if 0 <= i < flags.len() {
        flags.update(i, true)
    } else {
        flags
    }
}

/// The union of two flag lists, kept at the first one's length.
pub open spec fn merge_flags(a: Seq<bool>, b: Seq<bool>) -> Seq<bool> {
    Seq::new(a.len(), |i: int| a[i] || (i < b.len() && b[i]))
}

/// Scans the run of consecutive fork statements from one index: marks
/// each, collects its resolved target, and returns the collected
/// targets, the updated flags, and the index after the run.
pub open spec fn scan_forks(
    nodes: Seq<NodeV>,
    labels: Seq<(Seq<char>, usize)>,
    check_idx: int,
    flags: Seq<bool>,
) -> (Seq<usize>, Seq<bool>, int)
    decreases nodes.len() - check_idx,
{
    if 0 <= check_idx < nodes.len() && nodes[check_idx] is Fork {
        let flags1 = set_flag(flags, check_idx);
        let extra = match label_get(labels, nodes[check_idx]->Fork_0) {
            Some(ti) => seq![ti],
            None => Seq::empty(),
        };
        let rest = scan_forks(nodes, labels, check_idx + 1, flags1);
        (extra + rest.0, rest.1, rest.2)
    } else {
        (Seq::empty(), flags, check_idx)
    }
}

/// The walk that looks for the join a fork's branches converge at: past
/// atomics, skipping nested forks beyond their own joins, following
/// resolvable gotos, giving up at `goto end`, dead ends, revisits, or an
/// exhausted budget.
pub open spec fn join_walk(
    nodes: Seq<NodeV>,
    labels: Seq<(Seq<char>, usize)>,
    current: int,
    flags: Seq<bool>,
    gas: nat,
) -> Option<usize>
    decreases gas, 0int, 0int,
{
    if gas == 0 {
        None
    } else if !(0 <= current < nodes.len()) {
        None
    } else if flags[current] {
        None
    } else {
        let g1 = (gas - 1) as nat;
        let flags1 = set_flag(flags, current);
        match nodes[current] {
            NodeV::Join(_) => Some(current as usize),
            NodeV::Fork(_) => match find_join_spec(nodes, labels, current, g1) {
                Some(nested_join) => join_walk(nodes, labels, nested_join + 1, flags1, g1),
                None => join_walk(nodes, labels, current + 1, flags1, g1),
            },
            NodeV::Atomic(_) => join_walk(nodes, labels, current + 1, flags1, g1),
            NodeV::Goto(t) => if t == "end"@ {
                None
            } else {
                match label_get(labels, t) {
                    Some(target_idx) => join_walk(nodes, labels, target_idx as int, flags1, g1),
                    None => None,
                }
            },
        }
    }
}

/// The join search for one fork: the walk from the statement after it,
/// with fresh flags.
pub open spec fn find_join_spec(
    nodes: Seq<NodeV>,
    labels: Seq<(Seq<char>, usize)>,
    fork_idx: int,
    fuel: nat,
) -> Option<usize>
    decreases fuel, 1int, 0int,
{
    let start = if fork_idx < nodes.len() {
        fork_idx + 1
    } else {
        nodes.len() as int
    };
    join_walk(nodes, labels, start, fresh_flags(nodes.len()), fuel)
}

/// A region that is not a sequence stands for itself; a sequence opens
/// into its children.
pub open spec fn flatten_one(r: RegionV) -> Seq<RegionV> {
    match r {
        RegionV::Sequence(rs) => rs,
        other => seq![other],
    }
}

/// Drops the empty regions of a list.
pub open spec fn keep_nonempty(s: Seq<RegionV>) -> Seq<RegionV>
    decreases s,
{
    if s.len() == 0 {
        Seq::empty()
    } else {
        keep_nonempty(s.drop_last()) + (if region_is_empty(s.last()) {
            Seq::empty()
        } else {
            seq![s.last()]
        })
    }
}

/// Flattens nested sequences one level and drops empty regions, keeping
/// the relative order.
pub open spec fn flatten_regions(s: Seq<RegionV>) -> Seq<RegionV>
    decreases s,
{
    if s.len() == 0 {
        Seq::empty()
    } else {
        flatten_regions(s.drop_last()) + keep_nonempty(flatten_one(s.last()))
    }
}

/// The collapse of a flattened region list: no survivor gives the empty
/// sequence, one survivor stands alone, more stay a sequence.
pub open spec fn seq_collapse(s: Seq<RegionV>) -> RegionV {
    let f = flatten_regions(s);
    if f.len() == 0 {
        RegionV::Sequence(Seq::empty())
    } else if f.len() == 1 {
        f[0]
    } else {
        RegionV::Sequence(f)
    }
}

/// One parallel branch: the walk from its entry, stopping at the shared
/// join, a visited statement, a terminal or unresolved goto, a join
/// statement, a dead end, or an exhausted budget; returns the regions
/// emitted along the way and the branch-local flags.
pub open spec fn branch_walk(
    nodes: Seq<NodeV>,
    labels: Seq<(Seq<char>, usize)>,
    current: int,
    join_idx: Option<usize>,
    global: Seq<bool>,
    local: Seq<bool>,
    gas: nat,
) -> (Seq<RegionV>, Seq<bool>)
    decreases gas, 2int, 0int,
{
    if gas == 0 {
        (Seq::empty(), local)
    } else {
        let g1 = (gas - 1) as nat;
        let at_join = match join_idx {
            Some(j) => current == j,
            None => false,
        };
        if at_join {
            (Seq::empty(), local)
        } else if !(0 <= current < nodes.len()) {
            (Seq::empty(), local)
        } else if global[current] || local[current] {
            (Seq::empty(), local)
        } else {
            match nodes[current] {
                NodeV::Atomic(name) => {
                    let rest = branch_walk(
                        nodes,
                        labels,
                        current + 1,
                        join_idx,
                        global,
                        set_flag(local, current),
                        g1,
                    );
                    (seq![RegionV::Atomic(name)] + rest.0, rest.1)
                }
                NodeV::Fork(t) => {
                    let local1 = set_flag(local, current);
                    let nested_join = find_join_spec(nodes, labels, current, g1);
                    let scan = scan_forks(nodes, labels, current + 1, local1);
                    let targets = seq![(scan.2 as usize)] + (match label_get(labels, t) {
                        Some(ti) => seq![ti],
                        None => Seq::empty(),
                    }) + scan.0;
                    let fan = branch_fan(nodes, labels, targets, nested_join, global, scan.1, g1);
                    let emitted: Seq<RegionV> = if fan.0.len() > 0 {
                        seq![RegionV::Parallel(fan.0)]
                    } else {
                        Seq::empty()
                    };
                    match nested_join {
                        Some(nj) => {
                            let rest = branch_walk(
                                nodes,
                                labels,
                                nj + 1,
                                join_idx,
                                global,
                                set_flag(fan.1, nj as int),
                                g1,
                            );
                            (emitted + rest.0, rest.1)
                        }
                        None => (emitted, fan.1),
                    }
                }
                NodeV::Join(_) => (Seq::empty(), local),
                NodeV::Goto(t) => {
                    let local1 = set_flag(local, current);
                    if t == "end"@ {
                        (Seq::empty(), local1)
                    } else {
                        match label_get(labels, t) {
                            Some(ti) => {
                                let target_is_join = match join_idx {
                                    Some(j) => ti == j,
                                    None => false,
                                };
                                if target_is_join {
                                    (Seq::empty(), local1)
                                } else if ti < nodes.len() && (global[ti as int]
                                    || local1[ti as int]) {
                                    (Seq::empty(), local1)
                                } else {
                                    branch_walk(
                                        nodes,
                                        labels,
                                        ti as int,
                                        join_idx,
                                        global,
                                        local1,
                                        g1,
                                    )
                                }
                            }
                            None => (Seq::empty(), local1),
                        }
                    }
                }
            }
        }
    }
}

/// The branches of one fork, built in entry order against a shared local
/// flag list; each non-empty collapsed branch joins the parallel list.
pub open spec fn branch_fan(
    nodes: Seq<NodeV>,
    labels: Seq<(Seq<char>, usize)>,
    targets: Seq<usize>,
    join_idx: Option<usize>,
    global: Seq<bool>,
    local: Seq<bool>,
    gas: nat,
) -> (Seq<RegionV>, Seq<bool>)
    decreases gas, 3int, targets.len(),
{
    if targets.len() == 0 {
        (Seq::empty(), local)
    } else {
        let b = branch_walk(nodes, labels, targets[0] as int, join_idx, global, local, gas);
        let region = seq_collapse(b.0);
        let rest = branch_fan(nodes, labels, targets.drop_first(), join_idx, global, b.1, gas);
        (
            (if region_is_empty(region) {
                Seq::empty()
            } else {
                seq![region]
            }) + rest.0,
            rest.1,
        )
    }
}

/// The main structuring walk from one statement: atomics in sequence,
/// forks opening parallel regions whose branches run to the shared join,
/// joins and gotos passing through, stopping at revisits, terminal
/// gotos, dead ends, or an exhausted budget.
pub open spec fn build_walk(
    nodes: Seq<NodeV>,
    labels: Seq<(Seq<char>, usize)>,
    current: int,
    visited: Seq<bool>,
    gas: nat,
) -> (Seq<RegionV>, Seq<bool>)
    decreases gas, 4int, 0int,
{
    if gas == 0 {
        (Seq::empty(), visited)
    } else {
        let g1 = (gas - 1) as nat;
        if !(0 <= current < nodes.len()) {
            (Seq::empty(), visited)
        } else if visited[current] {
            (Seq::empty(), visited)
        } else {
            match nodes[current] {
                NodeV::Atomic(name) => {
                    let rest = build_walk(
                        nodes,
                        labels,
                        current + 1,
                        set_flag(visited, current),
                        g1,
                    );
                    (seq![RegionV::Atomic(name)] + rest.0, rest.1)
                }
                NodeV::Fork(t) => {
                    let v1 = set_flag(visited, current);
                    let join = find_join_spec(nodes, labels, current, g1);
                    let scan = scan_forks(nodes, labels, current + 1, v1);
                    let targets = seq![(scan.2 as usize)] + (match label_get(labels, t) {
                        Some(ti) => seq![ti],
                        None => Seq::empty(),
                    }) + scan.0;
                    let fan = main_fan(nodes, labels, targets, join, scan.1, g1);
                    let emitted: Seq<RegionV> = if fan.0.len() > 0 {
                        seq![RegionV::Parallel(fan.0)]
                    } else {
                        Seq::empty()
                    };
                    match join {
                        Some(j) => {
                            let rest = build_walk(
                                nodes,
                                labels,
                                j + 1,
                                set_flag(fan.1, j as int),
                                g1,
                            );
                            (emitted + rest.0, rest.1)
                        }
                        None => (emitted, fan.1),
                    }
                }
                NodeV::Join(_) => build_walk(
                    nodes,
                    labels,
                    current + 1,
                    set_flag(visited, current),
                    g1,
                ),
                NodeV::Goto(t) => {
                    let v1 = set_flag(visited, current);
                    if t == "end"@ {
                        (Seq::empty(), v1)
                    } else {
                        match label_get(labels, t) {
                            Some(ti) => if ti < nodes.len() && !v1[ti as int] {
                                build_walk(nodes, labels, ti as int, v1, g1)
                            } else {
                                (Seq::empty(), v1)
                            },
                            None => (Seq::empty(), v1),
                        }
                    }
                }
            }
        }
    }
}

/// The branches of one fork at the top level: each runs against the
/// shared visited flags with a fresh local list, merged back after it is
/// built.
pub open spec fn main_fan(
    nodes: Seq<NodeV>,
    labels: Seq<(Seq<char>, usize)>,
    targets: Seq<usize>,
    join_idx: Option<usize>,
    visited: Seq<bool>,
    gas: nat,
) -> (Seq<RegionV>, Seq<bool>)
    decreases gas, 5int, targets.len(),
{
    if targets.len() == 0 {
        (Seq::empty(), visited)
    } else {
        let b = branch_walk(
            nodes,
            labels,
            targets[0] as int,
            join_idx,
            visited,
            fresh_flags(nodes.len()),
            gas,
        );
        let region = seq_collapse(b.0);
        let merged = merge_flags(visited, b.1);
        let rest = main_fan(nodes, labels, targets.drop_first(), join_idx, merged, gas);
        (
            (if region_is_empty(region) {
                Seq::empty()
            } else {
                seq![region]
            }) + rest.0,
            rest.1,
        )
    }
}

/// The budget handed to the structuring walk.
pub open spec fn structure_fuel(n: nat) -> nat {
    if n < usize::MAX / 4 {
        4 * n + 4
    } else {
        usize::MAX as nat
    }
}

/// What structuring recovers from a program: the walk from statement
/// zero, collapsed, mapped into the structured notation, a top-level
/// sequence opened into the graph's node list.
pub open spec fn structure_spec(
    nodes: Seq<NodeV>,
    labels: Seq<(Seq<char>, usize)>,
) -> Seq<ir::NodeV> {
    let walk = build_walk(nodes, labels, 0, fresh_flags(nodes.len()), structure_fuel(nodes.len()));
    let node = region_to_ir_spec(seq_collapse(walk.0));
    match node {
        ir::NodeV::Sequence(children) => children,
        other => seq![other],
    }
}

/// Resolves a label in a binding list; the last binding wins.
#[verifier::loop_isolation(false)]
fn lookup_label(labels: &Vec<(String, usize)>, name: &str) -> (r: Option<usize>)
    ensures
        r == label_get(labels.deep_view(), name@),
{
    let ghost lv = labels.deep_view();
    proof {
        assert(lv.take(labels@.len() as int) =~= lv);
    }
    let mut i: usize = labels.len();
    while i > 0
        invariant
            i <= labels.len(),
            label_get(lv, name@) == label_get(lv.take(i as int), name@),
        decreases i,
    {
        i -= 1;
        proof {
            assert(lv.take(i + 1).drop_last() =~= lv.take(i as int));
            assert(lv.take(i + 1).last() == lv[i as int]);
        }
        if crate::text::str_eq(labels[i].0.as_str(), name) {
            return Some(labels[i].1);
        }
    }
    None
}

/// A fresh all-false flag list.
fn make_flags(n: usize) -> (r: Vec<bool>)
    ensures
        r@.len() == n,
        r@ == fresh_flags(n as nat),
{
    let mut r: Vec<bool> = Vec::new();
    let mut i: usize = 0;
    while i < n
        invariant
            r@.len() == i,
            i <= n,
            forall|j: int| 0 <= j < i ==> !r@[j],
        decreases n - i,
    {
        r.push(false);
        i += 1;
    }
    proof {
        assert(r@ =~= fresh_flags(n as nat));
    }
    r
}

/// The control-flow graph of a Fork-Join program: each statement's
/// instruction by index, the label bindings, and the successor edges.
#[derive(Debug)]
pub struct ControlFlowGraph {
    nodes: Vec<fk::Node>,
    edges: Vec<(usize, usize)>,
    labels: Vec<(String, usize)>,
}

impl ControlFlowGraph {
    /// The instructions by statement index.
    pub closed spec fn nodes_v(&self) -> Seq<NodeV> {
        self.nodes.deep_view()
    }

    /// The label bindings in order.
    pub closed spec fn labels_v(&self) -> Seq<(Seq<char>, usize)> {
        self.labels.deep_view()
    }

    /// The successor edges in order.
    pub closed spec fn edges_v(&self) -> Seq<(usize, usize)> {
        self.edges@
    }

    pub fn new() -> (r: Self)
        ensures
            r.nodes_v() == Seq::<NodeV>::empty(),
            r.labels_v() == Seq::<(Seq<char>, usize)>::empty(),
            r.edges_v() == Seq::<(usize, usize)>::empty(),
    {
        let r = ControlFlowGraph { nodes: Vec::new(), edges: Vec::new(), labels: Vec::new() };
        proof {
            assert(r.nodes_v() =~= Seq::<NodeV>::empty());
            assert(r.labels_v() =~= Seq::<(Seq<char>, usize)>::empty());
        }
        r
    }

    /// Builds the graph of a statement list: every label is bound to its
    /// statement index (a later duplicate winning), and the edges follow
    /// the fall-through, goto and fork rules.
    #[verifier::loop_isolation(false)]
    #[verifier::rlimit(80)]
    pub fn from_graph(graph: &fk::Graph) -> (r: Self)
        ensures
            r.nodes_v() == stmts_nodes(graph@),
            r.labels_v() == labels_of(graph@),
            r.edges_v() == edges_of(stmts_nodes(graph@), labels_of(graph@), graph@.len() as int),
    {
        broadcast use fk::group_stmts_view;
        broadcast use group_stmts_nodes;

        let ghost gv = graph@;
        let n = graph.0.len();
        let mut nodes: Vec<fk::Node> = Vec::new();
        let mut labels: Vec<(String, usize)> = Vec::new();
        let mut idx: usize = 0;
        while idx < n
            invariant
                idx <= n,
                nodes.deep_view() =~= stmts_nodes(gv.take(idx as int)),
                labels.deep_view() =~= labels_of(gv.take(idx as int)),
            decreases n - idx,
        {
            proof {
                assert(gv.take(idx + 1).drop_last() =~= gv.take(idx as int));
                assert(gv.take(idx + 1).last() == gv[idx as int]);
                assert(gv[idx as int] == graph.0@[idx as int]@);
            }
            let stmt = &graph.0[idx];
            match &stmt.label {
                Some(label) => {
                    labels.push((label.clone(), idx));
                    proof {
                        assert(labels.deep_view() =~= labels_of(gv.take(idx + 1)));
                    }
                }
                None => {
                    proof {
                        assert(labels.deep_view() =~= labels_of(gv.take(idx + 1)));
                    }
                }
            }
            nodes.push(fk::clone_node(&stmt.node));
            proof {
                assert(nodes.deep_view() =~= stmts_nodes(gv.take(idx + 1)));
            }
            idx += 1;
        }
        proof {
            assert(gv.take(gv.len() as int) =~= gv);
            assert(stmts_nodes(gv).len() == gv.len());
        }
        let ghost nv = stmts_nodes(gv);
        let ghost lv = labels_of(gv);
        proof {
            assert(labels.deep_view() == lv);
            assert(nodes.deep_view() == nv);
        }

        let mut edges: Vec<(usize, usize)> = Vec::new();
        let mut idx: usize = 0;
        while idx < n
            invariant
                idx <= n,
                n == gv.len(),
                nodes.deep_view() == nv,
                labels.deep_view() == lv,
                edges@ =~= edges_of(nv, lv, idx as int),
            decreases n - idx,
        {
            proof {
                assert(gv[idx as int] == graph.0@[idx as int]@);
                assert(stmts_nodes(gv)[idx as int] == gv[idx as int].node);
            }
            match &graph.0[idx].node {
                fk::Node::Goto(target_label) => {
                    if !text::str_eq(target_label.as_str(), "end") {
                        match lookup_label(&labels, target_label.as_str()) {
                            Some(target_idx) => {
                                edges.push((idx, target_idx));
                            }
                            None => {}
                        }
                    }
                    proof {
                        assert(edges@ =~= edges_of(nv, lv, idx + 1));
                    }
                }
                fk::Node::Fork(target_label) => {
                    match lookup_label(&labels, target_label.as_str()) {
                        Some(target_idx) => {
                            edges.push((idx, target_idx));
                        }
                        None => {}
                    }
                    if idx + 1 < n {
                        edges.push((idx, idx + 1));
                    }
                    proof {
                        assert(edges@ =~= edges_of(nv, lv, idx + 1));
                    }
                }
                _ => {
                    if idx + 1 < n {
                        edges.push((idx, idx + 1));
                    }
                    proof {
                        assert(edges@ =~= edges_of(nv, lv, idx + 1));
                    }
                }
            }
            idx += 1;
        }
        ControlFlowGraph { nodes, edges, labels }
    }
}


/// What a region becomes in the structured notation: atomics map one to
/// one with empty dependency lists, a sequence of zero stays an empty
/// sequence, of one collapses to its child, of more stays a sequence;
/// parallel regions likewise.
pub open spec fn region_to_ir_spec(r: RegionV) -> ir::NodeV
    decreases r,
{
    match r {
        RegionV::Atomic(name) => ir::NodeV::Atomic(name, Seq::empty(), false),
        RegionV::Sequence(rs) => if rs.len() == 0 {
            ir::NodeV::Sequence(Seq::empty())
        } else if rs.len() == 1 {
            region_to_ir_spec(rs[0])
        } else {
            ir::NodeV::Sequence(regions_to_ir_spec(rs))
        },
        RegionV::Parallel(bs) => if bs.len() == 0 {
            ir::NodeV::Par(Seq::empty())
        } else if bs.len() == 1 {
            region_to_ir_spec(bs[0])
        } else {
            ir::NodeV::Par(regions_to_ir_spec(bs))
        },
    }
}

pub open spec fn regions_to_ir_spec(s: Seq<RegionV>) -> Seq<ir::NodeV>
    decreases s,
{
    if s.len() == 0 {
        Seq::empty()
    } else {
        regions_to_ir_spec(s.drop_last()).push(region_to_ir_spec(s.last()))
    }
}

pub broadcast proof fn lemma_regions_to_ir_len(s: Seq<RegionV>)
    ensures
        #[trigger] regions_to_ir_spec(s).len() == s.len(),
    decreases s,
{
    if s.len() != 0 {
        lemma_regions_to_ir_len(s.drop_last());
    }
}

pub broadcast proof fn lemma_regions_to_ir_index(s: Seq<RegionV>, i: int)
    requires
        0 <= i < s.len(),
    ensures
        #[trigger] regions_to_ir_spec(s)[i] == region_to_ir_spec(s[i]),
    decreases s,
{
    lemma_regions_to_ir_len(s);
    if i < s.len() - 1 {
        lemma_regions_to_ir_index(s.drop_last(), i);
    }
}

/// A structured node recovered from a region carries no dependency
/// annotations, no terminal markers, no bare dependencies, and no atomic
/// names beyond those of the region.
pub proof fn lemma_region_to_ir_plain(r: RegionV)
    ensures
        crate::par::representable(region_to_ir_spec(r)),
        ir::node_names(region_to_ir_spec(r)).subset_of(region_names(r)),
    decreases r,
{
    match r {
        RegionV::Atomic(name) => {
            assert(ir::node_names(region_to_ir_spec(r)) =~= region_names(r));
        }
        RegionV::Sequence(rs) => {
            lemma_regions_to_ir_plain(rs);
            if rs.len() == 1 {
                lemma_region_to_ir_plain(rs[0]);
                lemma_regions_names_index(rs, 0);
            }
        }
        RegionV::Parallel(bs) => {
            lemma_regions_to_ir_plain(bs);
            if bs.len() == 1 {
                lemma_region_to_ir_plain(bs[0]);
                lemma_regions_names_index(bs, 0);
            }
        }
    }
}

/// List form of [`lemma_region_to_ir_plain`].
pub proof fn lemma_regions_to_ir_plain(s: Seq<RegionV>)
    ensures
        crate::par::all_representable(regions_to_ir_spec(s)),
        ir::nodes_names(regions_to_ir_spec(s)).subset_of(regions_names(s)),
    decreases s,
{
    broadcast use lemma_regions_to_ir_len, lemma_regions_to_ir_index;

    if s.len() == 0 {
    } else {
        lemma_regions_to_ir_plain(s.drop_last());
        lemma_region_to_ir_plain(s.last());
        let t = regions_to_ir_spec(s);
        assert(t.drop_last() =~= regions_to_ir_spec(s.drop_last()));
        assert(t.last() == region_to_ir_spec(s.last()));
        crate::par::lemma_all_representable_pointwise(t);
        crate::par::lemma_all_representable_pointwise(t.drop_last());
        assert forall|i: int| 0 <= i < t.len() implies crate::par::representable(
            #[trigger] t[i],
        ) by {
            if i < t.len() - 1 {
                assert(t[i] == t.drop_last()[i]);
            }
        }
    }
}

/// Maps a recovered region into the structured notation.
#[verifier::loop_isolation(false)]
fn region_to_ir(region: &Region) -> (r: ir::Node)
    ensures
        r@ == region_to_ir_spec(region@),
    decreases region,
{
    broadcast use lemma_regions_view_len, lemma_regions_view_index;
    broadcast use lemma_regions_to_ir_len, lemma_regions_to_ir_index;
    broadcast use ir::group_nodes_view;

    match region {
        Region::Atomic { name } => {
            let r = ir::Node::Atomic(name.clone(), Vec::new(), false);
            proof {
                assert(ir::nodes_view(Seq::<ir::Node>::empty()) =~= Seq::<ir::NodeV>::empty());
                assert(r@ == region_to_ir_spec(region@));
            }
            r
        }
        Region::Sequence { regions } => {
            if regions.len() == 1 {
                proof {
                    assert(decreases_to!(*region => region->Sequence_regions));
                    assert(decreases_to!(
                        region->Sequence_regions => region->Sequence_regions[0]));
                }
                let r = region_to_ir(&regions[0]);
                proof {
                    assert(regions_view(regions@)[0] == regions@[0]@);
                    assert(r@ == region_to_ir_spec(region@));
                }
                r
            } else {
                let mut out: Vec<ir::Node> = Vec::new();
                let mut i: usize = 0;
                while i < regions.len()
                    invariant
                        i <= regions.len(),
                        out@.len() == i,
                        forall|j: int|
                            0 <= j < i ==> out@[j]@ == region_to_ir_spec(regions@[j]@),
                    decreases regions.len() - i,
                {
                    proof {
                        assert(decreases_to!(*region => region->Sequence_regions));
                        assert(decreases_to!(
                            region->Sequence_regions => region->Sequence_regions[i as int]));
                    }
                    let c = region_to_ir(&regions[i]);
                    out.push(c);
                    i += 1;
                }
                proof {
                    assert(ir::nodes_view(out@) =~= regions_to_ir_spec(regions_view(regions@)));
                }
                ir::Node::Sequence(out)
            }
        }
        Region::Parallel { branches } => {
            if branches.len() == 1 {
                proof {
                    assert(decreases_to!(*region => region->Parallel_branches));
                    assert(decreases_to!(
                        region->Parallel_branches => region->Parallel_branches[0]));
                }
                let r = region_to_ir(&branches[0]);
                proof {
                    assert(regions_view(branches@)[0] == branches@[0]@);
                    assert(r@ == region_to_ir_spec(region@));
                }
                r
            } else {
                let mut out: Vec<ir::Node> = Vec::new();
                let mut i: usize = 0;
                while i < branches.len()
                    invariant
                        i <= branches.len(),
                        out@.len() == i,
                        forall|j: int|
                            0 <= j < i ==> out@[j]@ == region_to_ir_spec(branches@[j]@),
                    decreases branches.len() - i,
                {
                    proof {
                        assert(decreases_to!(*region => region->Parallel_branches));
                        assert(decreases_to!(
                            region->Parallel_branches => region->Parallel_branches[i as int]));
                    }
                    let c = region_to_ir(&branches[i]);
                    out.push(c);
                    i += 1;
                }
                proof {
                    assert(ir::nodes_view(out@) =~= regions_to_ir_spec(regions_view(branches@)));
                }
                ir::Node::Par(out)
            }
        }
    }
}


impl ControlFlowGraph {
    /// Resolves a label to its statement index.
    fn label_index(&self, name: &String) -> (r: Option<usize>)
        ensures
            r == label_get(self.labels_v(), name@),
    {
        lookup_label(&self.labels, name.as_str())
    }

    /// Walks forward from a fork looking for the join its branches
    /// converge at: past atomics, through gotos, skipping over nested
    /// forks, giving up at `goto end`, dead ends, revisits, or an
    /// exhausted budget.
    #[verifier::loop_isolation(false)]
    fn find_join_for_fork(&self, fork_idx: usize, fuel: usize) -> (r: Option<usize>)
        ensures
            r matches Some(j) ==> j < self.nodes_v().len() && self.nodes_v()[j as int] is Join,
            r == find_join_spec(self.nodes_v(), self.labels_v(), fork_idx as int, fuel as nat),
        decreases fuel,
    {
        let ghost nv = self.nodes_v();
        let ghost lv = self.labels_v();
        let ghost target_r = find_join_spec(nv, lv, fork_idx as int, fuel as nat);
        let n = self.nodes.len();
        let mut visited = make_flags(n);
        let mut current: usize = if fork_idx < n {
            fork_idx + 1
        } else {
            n
        };
        let mut gas = fuel;
        loop
            invariant
                visited@.len() == n,
                n == self.nodes_v().len(),
                gas <= fuel,
                target_r == join_walk(nv, lv, current as int, visited@, gas as nat),
            decreases gas,
        {
            if gas == 0 {
                break;
            }
            gas -= 1;
            if current >= n {
                break;
            }
            if visited[current] {
                break;
            }
            let ghost flags0 = visited@;
            let ghost cur0 = current as int;
            visited[current] = true;
            proof {
                assert(visited@ =~= set_flag(flags0, cur0));
                assert(nv[cur0] == self.nodes@[cur0].deep_view());
            }
            match &self.nodes[current] {
                fk::Node::Join(_) => {
                    proof {
                        assert(self.nodes_v()[current as int] is Join);
                        assert(target_r == Some(current));
                    }
                    return Some(current);
                }
                fk::Node::Fork(_) => {
                    match self.find_join_for_fork(current, gas) {
                        Some(nested_join) => {
                            current = nested_join + 1;
                        }
                        None => {
                            current = current + 1;
                        }
                    }
                }
                fk::Node::Atomic(_) => {
                    current = current + 1;
                }
                fk::Node::Goto(target) => {
                    if text::str_eq(target.as_str(), "end") {
                        break;
                    }
                    match self.label_index(target) {
                        Some(target_idx) => {
                            current = target_idx;
                        }
                        None => {
                            break;
                        }
                    }
                }
            }
        }
        proof {
            assert(target_r is None);
        }
        None
    }

    /// Builds one parallel branch: follows the flow from its entry until
    /// it meets the join, an already-visited statement (the implicit
    /// convergence), a terminal goto, a dead end, or the budget runs out.
    /// Only the branch-local visited set is written; the shared one is
    /// read.
    #[verifier::loop_isolation(false)]
    #[verifier::rlimit(100)]
    #[verifier::spinoff_prover]
    fn build_branch_until(
        &self,
        start: usize,
        join_idx: Option<usize>,
        global: &Vec<bool>,
        local: &mut Vec<bool>,
        fuel: usize,
    ) -> (r: Region)
        requires
            global@.len() == self.nodes_v().len(),
            old(local)@.len() == self.nodes_v().len(),
        ensures
            final(local)@.len() == old(local)@.len(),
            region_names(r@).subset_of(node_name_set(self.nodes_v())),
            region_reduced(r@),
            ({
                let w = branch_walk(
                    self.nodes_v(),
                    self.labels_v(),
                    start as int,
                    join_idx,
                    global@,
                    old(local)@,
                    fuel as nat,
                );
                &&& r@ == seq_collapse(w.0)
                &&& final(local)@ == w.1
            }),
        decreases fuel,
    {
        broadcast use lemma_regions_view_len, lemma_regions_view_index;

        let n = self.nodes.len();
        let ghost nv = self.nodes_v();
        let ghost lv = self.labels_v();
        let ghost all = node_name_set(self.nodes_v());
        let ghost target = branch_walk(
            nv,
            lv,
            start as int,
            join_idx,
            global@,
            local@,
            fuel as nat,
        );
        let mut regions: Vec<Region> = Vec::new();
        let mut current = start;
        let mut gas = fuel;
        let mut done = false;
        while !done
            invariant
                local@.len() == n,
                n == self.nodes_v().len(),
                gas <= fuel,
                regions_names(regions_view(regions@)).subset_of(all),
                regions_reduced(regions_view(regions@)),
                !done ==> ({
                    let w = branch_walk(nv, lv, current as int, join_idx, global@, local@,
                        gas as nat);
                    &&& target.0 == regions_view(regions@) + w.0
                    &&& target.1 == w.1
                }),
                done ==> target.0 == regions_view(regions@) && target.1 == local@,
            decreases gas, (if done {
                0int
            } else {
                1int
            }),
        {
            let ghost gas0 = gas as nat;
            let ghost cur0 = current as int;
            let ghost loc0 = local@;
            let ghost rv0 = regions_view(regions@);
            let ghost w0 = branch_walk(nv, lv, cur0, join_idx, global@, loc0, gas0);
            let at_join = match join_idx {
                Some(join) => current == join,
                None => false,
            };
            if gas == 0 || at_join || current >= n || global[current] || local[current] {
                proof {
                    assert(w0 == (Seq::<RegionV>::empty(), loc0));
                    assert(rv0 + w0.0 =~= rv0);
                }
                done = true;
            } else {
                gas -= 1;
                match &self.nodes[current] {
                    fk::Node::Atomic(name) => {
                        local[current] = true;
                        let ghost r0 = regions@;
                        regions.push(Region::Atomic { name: name.clone() });
                        proof {
                            assert(regions@.drop_last() =~= r0);
                            lemma_regions_push(r0, regions@);
                            assert(self.nodes_v()[current as int] == NodeV::Atomic(name@));
                            lemma_node_name_set_index(self.nodes_v(), current as int);
                            assert(region_names(regions@.last()@) =~= Set::empty().insert(
                                name@,
                            ));
                            assert(local@ =~= set_flag(loc0, cur0));
                            let w1 = branch_walk(nv, lv, cur0 + 1, join_idx, global@, local@,
                                gas as nat);
                            assert(w0.0 == seq![RegionV::Atomic(name@)] + w1.0);
                            assert(regions_view(regions@) =~= rv0.push(RegionV::Atomic(name@)));
                            assert(rv0 + w0.0 =~= regions_view(regions@) + w1.0);
                        }
                        current = current + 1;
                    }
                    fk::Node::Fork(target_label) => {
                        local[current] = true;
                        proof {
                            assert(self.nodes_v()[cur0] == NodeV::Fork(target_label@));
                            assert(local@ =~= set_flag(loc0, cur0));
                        }
                        let ghost l1 = local@;
                        let nested_join_idx = self.find_join_for_fork(current, gas);
                        let ghost lt_v: Seq<usize> = match label_get(lv, target_label@) {
                            Option::Some(ti) => seq![ti],
                            Option::None => Seq::empty(),
                        };
                        let ghost full_scan = scan_forks(nv, lv, cur0 + 1, l1);
                        let mut fork_targets: Vec<usize> = Vec::new();
                        fork_targets.push(current + 1);
                        match self.label_index(target_label) {
                            Some(target_idx) => {
                                fork_targets.push(target_idx);
                            }
                            None => {}
                        }
                        let ghost base_len = fork_targets@.len() as int;
                        proof {
                            assert(fork_targets@ =~= seq![(cur0 + 1) as usize] + lt_v);
                            assert(fork_targets@.skip(base_len) =~= Seq::<usize>::empty());
                        }
                        let mut check_idx = current + 1;
                        while check_idx < n && matches!(&self.nodes[check_idx], fk::Node::Fork(_))
                            invariant
                                local@.len() == n,
                                current < check_idx,
                                fork_targets@.len() >= base_len,
                                fork_targets@.take(base_len) == seq![(cur0 + 1) as usize] + lt_v,
                                ({
                                    let sc = scan_forks(nv, lv, check_idx as int, local@);
                                    &&& full_scan.0 == fork_targets@.skip(base_len) + sc.0
                                    &&& full_scan.1 == sc.1
                                    &&& full_scan.2 == sc.2
                                }),
                            decreases n - check_idx,
                        {
                            let ghost ci0 = check_idx as int;
                            let ghost fl0 = local@;
                            let ghost ft0 = fork_targets@;
                            local[check_idx] = true;
                            proof {
                                assert(local@ =~= set_flag(fl0, ci0));
                            }
                            match &self.nodes[check_idx] {
                                fk::Node::Fork(next_target) => {
                                    proof {
                                        assert(nv[ci0] == NodeV::Fork(next_target@));
                                    }
                                    match self.label_index(next_target) {
                                        Some(target_idx) => {
                                            fork_targets.push(target_idx);
                                            proof {
                                                assert(fork_targets@.take(base_len)
                                                    =~= ft0.take(base_len));
                                                assert(fork_targets@.skip(base_len)
                                                    =~= ft0.skip(base_len).push(target_idx));
                                            }
                                        }
                                        None => {}
                                    }
                                }
                                _ => {}
                            }
                            proof {
                                let sc_next = scan_forks(nv, lv, ci0 + 1, local@);
                                assert(scan_forks(nv, lv, ci0, fl0).0 =~= (match label_get(
                                    lv,
                                    nv[ci0]->Fork_0,
                                ) {
                                    Option::Some(ti) => seq![ti],
                                    Option::None => Seq::empty(),
                                }) + sc_next.0);
                                assert(full_scan.0 =~= fork_targets@.skip(base_len)
                                    + sc_next.0);
                            }
                            check_idx = check_idx + 1;
                        }
                        proof {
                            let sc = scan_forks(nv, lv, check_idx as int, local@);
                            assert(sc.0 =~= Seq::<usize>::empty());
                            assert(full_scan.0 =~= fork_targets@.skip(base_len));
                            assert(full_scan.1 == local@);
                            assert(full_scan.2 == check_idx as int);
                        }
                        let ghost ft_before = fork_targets@;
                        if fork_targets.len() > 0 {
                            fork_targets[0] = check_idx;
                        }
                        proof {
                            assert(base_len == 1 + lt_v.len());
                            assert((full_scan.2 as usize) == check_idx);
                            assert(fork_targets@ == ft_before.update(0, check_idx));
                            assert forall|x: int| 1 <= x < base_len implies fork_targets@[x]
                                == lt_v[x - 1] by {
                                assert(ft_before.take(base_len)[x] == (seq![(cur0 + 1) as usize]
                                    + lt_v)[x]);
                            }
                            assert(fork_targets@.take(base_len) =~= seq![(
                            full_scan.2 as usize)] + lt_v);
                            assert(fork_targets@.skip(base_len) =~= ft_before.skip(base_len));
                            assert(fork_targets@ =~= fork_targets@.take(base_len)
                                + fork_targets@.skip(base_len));
                            assert(fork_targets@ =~= seq![(full_scan.2 as usize)] + lt_v
                                + full_scan.0);
                            assert(fork_targets@.skip(0) =~= fork_targets@);
                        }

                        let ghost fan_full = branch_fan(
                            nv,
                            lv,
                            fork_targets@,
                            nested_join_idx,
                            global@,
                            local@,
                            gas as nat,
                        );
                        let mut branches: Vec<Region> = Vec::new();
                        let mut b: usize = 0;
                        while b < fork_targets.len()
                            invariant
                                local@.len() == n,
                                n == self.nodes_v().len(),
                                global@.len() == n,
                                b <= fork_targets@.len(),
                                regions_names(regions_view(branches@)).subset_of(all),
                                regions_reduced(regions_view(branches@)),
                                ({
                                    let f = branch_fan(nv, lv, fork_targets@.skip(b as int),
                                        nested_join_idx, global@, local@, gas as nat);
                                    &&& fan_full.0 == regions_view(branches@) + f.0
                                    &&& fan_full.1 == f.1
                                }),
                            decreases fork_targets.len() - b,
                        {
                            proof {
                                assert(fork_targets@.skip(b as int).len() > 0);
                                assert(fork_targets@.skip(b as int)[0] == fork_targets@[
                                b as int]);
                                assert(fork_targets@.skip(b as int).drop_first()
                                    =~= fork_targets@.skip(b + 1));
                            }
                            let branch_region = self.build_branch_until(
                                fork_targets[b],
                                nested_join_idx,
                                global,
                                local,
                                gas,
                            );
                            if !branch_region.is_empty() {
                                let ghost b0 = branches@;
                                branches.push(branch_region);
                                proof {
                                    assert(branches@.drop_last() =~= b0);
                                    lemma_regions_push(b0, branches@);
                                    let f1 = branch_fan(nv, lv, fork_targets@.skip(b + 1),
                                        nested_join_idx, global@, local@, gas as nat);
                                    assert(fan_full.0 =~= regions_view(branches@) + f1.0);
                                }
                            } else {
                                proof {
                                    let f1 = branch_fan(nv, lv, fork_targets@.skip(b + 1),
                                        nested_join_idx, global@, local@, gas as nat);
                                    assert(fan_full.0 =~= regions_view(branches@) + f1.0);
                                }
                            }
                            b += 1;
                        }
                        proof {
                            assert(fork_targets@.skip(fork_targets@.len() as int) =~= Seq::<
                                usize,
                            >::empty());
                            assert(fan_full.0 == regions_view(branches@));
                            assert(fan_full.1 == local@);
                        }
                        let ghost emitted: Seq<RegionV> = if fan_full.0.len() > 0 {
                            seq![RegionV::Parallel(fan_full.0)]
                        } else {
                            Seq::empty()
                        };
                        if branches.len() > 0 {
                            let ghost r0 = regions@;
                            let ghost bn = regions_names(regions_view(branches@));
                            regions.push(Region::Parallel { branches });
                            proof {
                                assert(regions@.drop_last() =~= r0);
                                lemma_regions_push(r0, regions@);
                                assert(region_names(regions@.last()@) == bn);
                                assert(regions_view(regions@) =~= rv0 + emitted);
                            }
                        } else {
                            proof {
                                assert(regions_view(regions@) =~= rv0 + emitted);
                            }
                        }
                        match nested_join_idx {
                            Some(nested_join) => {
                                if nested_join < n {
                                    local[nested_join] = true;
                                }
                                proof {
                                    assert(local@ =~= set_flag(fan_full.1, nested_join as int));
                                    let w1 = branch_walk(nv, lv, nested_join + 1, join_idx,
                                        global@, local@, gas as nat);
                                    assert(w0.0 == emitted + w1.0);
                                    assert(w0.1 == w1.1);
                                    assert(rv0 + w0.0 =~= regions_view(regions@) + w1.0);
                                }
                                current = nested_join + 1;
                            }
                            None => {
                                proof {
                                    assert(w0.0 == emitted);
                                    assert(w0.1 == fan_full.1);
                                    assert(rv0 + w0.0 =~= regions_view(regions@));
                                }
                                done = true;
                            }
                        }
                    }
                    fk::Node::Join(_) => {
                        proof {
                            assert(nv[cur0] is Join);
                            assert(w0 == (Seq::<RegionV>::empty(), loc0));
                            assert(rv0 + w0.0 =~= rv0);
                        }
                        done = true;
                    }
                    fk::Node::Goto(target) => {
                        local[current] = true;
                        proof {
                            assert(nv[cur0] == NodeV::Goto(target@));
                            assert(local@ =~= set_flag(loc0, cur0));
                        }
                        if text::str_eq(target.as_str(), "end") {
                            proof {
                                assert(w0 == (Seq::<RegionV>::empty(), local@));
                                assert(rv0 + w0.0 =~= rv0);
                            }
                            done = true;
                        } else {
                            match self.label_index(target) {
                                Some(target_idx) => {
                                    let target_is_join = match join_idx {
                                        Some(join) => target_idx == join,
                                        None => false,
                                    };
                                    if target_is_join {
                                        proof {
                                            assert(w0 == (Seq::<RegionV>::empty(), local@));
                                            assert(rv0 + w0.0 =~= rv0);
                                        }
                                        done = true;
                                    } else if target_idx < n && (global[target_idx]
                                        || local[target_idx]) {
                                        proof {
                                            assert(w0 == (Seq::<RegionV>::empty(), local@));
                                            assert(rv0 + w0.0 =~= rv0);
                                        }
                                        done = true;
                                    } else {
                                        current = target_idx;
                                    }
                                }
                                None => {
                                    proof {
                                        assert(w0 == (Seq::<RegionV>::empty(), local@));
                                        assert(rv0 + w0.0 =~= rv0);
                                    }
                                    done = true;
                                }
                            }
                        }
                    }
                }
            }
        }
        Region::sequence(regions)
    }

    /// The main structuring walk from one statement: atomics run in
    /// sequence, a fork opens a parallel region whose branches are built
    /// up to the shared join, joins and gotos pass through, and the walk
    /// stops at revisits, terminal gotos, dead ends, or an exhausted
    /// budget.
    #[verifier::loop_isolation(false)]
    #[verifier::rlimit(80)]
    fn build_from_index(&self, start: usize, visited: &mut Vec<bool>, fuel: usize) -> (r: Region)
        requires
            old(visited)@.len() == self.nodes_v().len(),
        ensures
            final(visited)@.len() == old(visited)@.len(),
            region_names(r@).subset_of(node_name_set(self.nodes_v())),
            region_reduced(r@),
            ({
                let w = build_walk(
                    self.nodes_v(),
                    self.labels_v(),
                    start as int,
                    old(visited)@,
                    fuel as nat,
                );
                &&& r@ == seq_collapse(w.0)
                &&& final(visited)@ == w.1
            }),
        decreases fuel,
    {
        broadcast use lemma_regions_view_len, lemma_regions_view_index;

        let n = self.nodes.len();
        let ghost nv = self.nodes_v();
        let ghost lv = self.labels_v();
        let ghost all = node_name_set(self.nodes_v());
        let ghost target = build_walk(nv, lv, start as int, visited@, fuel as nat);
        let mut regions: Vec<Region> = Vec::new();
        let mut current = start;
        let mut gas = fuel;
        let mut done = false;
        while !done
            invariant
                visited@.len() == n,
                n == self.nodes_v().len(),
                gas <= fuel,
                regions_names(regions_view(regions@)).subset_of(all),
                regions_reduced(regions_view(regions@)),
                !done ==> ({
                    let w = build_walk(nv, lv, current as int, visited@, gas as nat);
                    &&& target.0 == regions_view(regions@) + w.0
                    &&& target.1 == w.1
                }),
                done ==> target.0 == regions_view(regions@) && target.1 == visited@,
            decreases gas, (if done {
                0int
            } else {
                1int
            }),
        {
            let ghost gas0 = gas as nat;
            let ghost cur0 = current as int;
            let ghost vis0 = visited@;
            let ghost rv0 = regions_view(regions@);
            let ghost w0 = build_walk(nv, lv, cur0, vis0, gas0);
            if gas == 0 || current >= n || visited[current] {
                proof {
                    assert(w0 == (Seq::<RegionV>::empty(), vis0));
                    assert(rv0 + w0.0 =~= rv0);
                }
                done = true;
            } else {
                gas -= 1;
                match &self.nodes[current] {
                    fk::Node::Atomic(name) => {
                        visited[current] = true;
                        let ghost r0 = regions@;
                        regions.push(Region::Atomic { name: name.clone() });
                        proof {
                            assert(regions@.drop_last() =~= r0);
                            lemma_regions_push(r0, regions@);
                            assert(self.nodes_v()[current as int] == NodeV::Atomic(name@));
                            lemma_node_name_set_index(self.nodes_v(), current as int);
                            assert(region_names(regions@.last()@) =~= Set::empty().insert(
                                name@,
                            ));
                            assert(visited@ =~= set_flag(vis0, cur0));
                            let w1 = build_walk(nv, lv, cur0 + 1, visited@, gas as nat);
                            assert(w0.0 == seq![RegionV::Atomic(name@)] + w1.0);
                            assert(regions_view(regions@) =~= rv0.push(RegionV::Atomic(name@)));
                            assert(rv0 + w0.0 =~= regions_view(regions@) + w1.0);
                        }
                        current = current + 1;
                    }
                    fk::Node::Fork(target_label) => {
                        visited[current] = true;
                        proof {
                            assert(self.nodes_v()[cur0] == NodeV::Fork(target_label@));
                            assert(visited@ =~= set_flag(vis0, cur0));
                        }
                        let ghost v1 = visited@;
                        let join_idx = self.find_join_for_fork(current, gas);
                        let ghost lt_v: Seq<usize> = match label_get(lv, target_label@) {
                            Option::Some(ti) => seq![ti],
                            Option::None => Seq::empty(),
                        };
                        let ghost full_scan = scan_forks(nv, lv, cur0 + 1, v1);
                        let mut fork_targets: Vec<usize> = Vec::new();
                        fork_targets.push(current + 1);
                        match self.label_index(target_label) {
                            Some(target_idx) => {
                                fork_targets.push(target_idx);
                            }
                            None => {}
                        }
                        let ghost base_len = fork_targets@.len() as int;
                        proof {
                            assert(fork_targets@ =~= seq![(cur0 + 1) as usize] + lt_v);
                            assert(fork_targets@.skip(base_len) =~= Seq::<usize>::empty());
                        }
                        let mut check_idx = current + 1;
                        while check_idx < n && matches!(&self.nodes[check_idx], fk::Node::Fork(_))
                            invariant
                                visited@.len() == n,
                                current < check_idx,
                                fork_targets@.len() >= base_len,
                                fork_targets@.take(base_len) == seq![(cur0 + 1) as usize] + lt_v,
                                ({
                                    let sc = scan_forks(nv, lv, check_idx as int, visited@);
                                    &&& full_scan.0 == fork_targets@.skip(base_len) + sc.0
                                    &&& full_scan.1 == sc.1
                                    &&& full_scan.2 == sc.2
                                }),
                            decreases n - check_idx,
                        {
                            let ghost ci0 = check_idx as int;
                            let ghost fl0 = visited@;
                            let ghost ft0 = fork_targets@;
                            visited[check_idx] = true;
                            proof {
                                assert(visited@ =~= set_flag(fl0, ci0));
                            }
                            match &self.nodes[check_idx] {
                                fk::Node::Fork(next_target) => {
                                    proof {
                                        assert(nv[ci0] == NodeV::Fork(next_target@));
                                    }
                                    match self.label_index(next_target) {
                                        Some(target_idx) => {
                                            fork_targets.push(target_idx);
                                            proof {
                                                assert(fork_targets@.take(base_len)
                                                    =~= ft0.take(base_len));
                                                assert(fork_targets@.skip(base_len)
                                                    =~= ft0.skip(base_len).push(target_idx));
                                            }
                                        }
                                        None => {}
                                    }
                                }
                                _ => {}
                            }
                            proof {
                                let sc_next = scan_forks(nv, lv, ci0 + 1, visited@);
                                assert(scan_forks(nv, lv, ci0, fl0).0 =~= (match label_get(
                                    lv,
                                    nv[ci0]->Fork_0,
                                ) {
                                    Option::Some(ti) => seq![ti],
                                    Option::None => Seq::empty(),
                                }) + sc_next.0);
                                assert(full_scan.0 =~= fork_targets@.skip(base_len)
                                    + sc_next.0);
                            }
                            check_idx = check_idx + 1;
                        }
                        proof {
                            let sc = scan_forks(nv, lv, check_idx as int, visited@);
                            assert(sc.0 =~= Seq::<usize>::empty());
                            assert(full_scan.0 =~= fork_targets@.skip(base_len));
                            assert(full_scan.1 == visited@);
                            assert(full_scan.2 == check_idx as int);
                        }
                        let ghost ft_before = fork_targets@;
                        if fork_targets.len() > 0 {
                            fork_targets[0] = check_idx;
                        }
                        proof {
                            assert(base_len == 1 + lt_v.len());
                            assert((full_scan.2 as usize) == check_idx);
                            assert(fork_targets@ == ft_before.update(0, check_idx));
                            assert forall|x: int| 1 <= x < base_len implies fork_targets@[x]
                                == lt_v[x - 1] by {
                                assert(ft_before.take(base_len)[x] == (seq![(cur0 + 1) as usize]
                                    + lt_v)[x]);
                            }
                            assert(fork_targets@.take(base_len) =~= seq![(
                            full_scan.2 as usize)] + lt_v);
                            assert(fork_targets@.skip(base_len) =~= ft_before.skip(base_len));
                            assert(fork_targets@ =~= fork_targets@.take(base_len)
                                + fork_targets@.skip(base_len));
                            assert(fork_targets@ =~= seq![(full_scan.2 as usize)] + lt_v
                                + full_scan.0);
                            assert(fork_targets@.skip(0) =~= fork_targets@);
                        }

                        let ghost fan_full = main_fan(
                            nv,
                            lv,
                            fork_targets@,
                            join_idx,
                            visited@,
                            gas as nat,
                        );
                        let mut branches: Vec<Region> = Vec::new();
                        let mut b: usize = 0;
                        while b < fork_targets.len()
                            invariant
                                visited@.len() == n,
                                n == self.nodes_v().len(),
                                b <= fork_targets@.len(),
                                regions_names(regions_view(branches@)).subset_of(all),
                                regions_reduced(regions_view(branches@)),
                                ({
                                    let f = main_fan(nv, lv, fork_targets@.skip(b as int),
                                        join_idx, visited@, gas as nat);
                                    &&& fan_full.0 == regions_view(branches@) + f.0
                                    &&& fan_full.1 == f.1
                                }),
                            decreases fork_targets.len() - b,
                        {
                            proof {
                                assert(fork_targets@.skip(b as int).len() > 0);
                                assert(fork_targets@.skip(b as int)[0] == fork_targets@[
                                b as int]);
                                assert(fork_targets@.skip(b as int).drop_first()
                                    =~= fork_targets@.skip(b + 1));
                            }
                            let mut branch_local = make_flags(n);
                            let branch_region = self.build_branch_until(
                                fork_targets[b],
                                join_idx,
                                visited,
                                &mut branch_local,
                                gas,
                            );
                            let ghost bw = branch_walk(nv, lv, fork_targets@[b as int] as int,
                                join_idx, visited@, fresh_flags(n as nat), gas as nat);
                            let ghost vis_pre_merge = visited@;
                            let mut m: usize = 0;
                            while m < n
                                invariant
                                    visited@.len() == n,
                                    branch_local@.len() == n,
                                    m <= n,
                                    forall|x: int|
                                        0 <= x < m ==> (#[trigger] visited@[x]) == (
                                        vis_pre_merge[x] || branch_local@[x]),
                                    forall|x: int|
                                        m <= x < n ==> (#[trigger] visited@[x])
                                            == vis_pre_merge[x],
                                decreases n - m,
                            {
                                let ghost vm0 = visited@;
                                if branch_local[m] {
                                    visited[m] = true;
                                }
                                proof {
                                    assert forall|x: int| 0 <= x < m + 1 implies (
                                    #[trigger] visited@[x]) == (vis_pre_merge[x]
                                        || branch_local@[x]) by {
                                        if x < m {
                                            assert(visited@[x] == vm0[x]);
                                            assert(vm0[x] == (vis_pre_merge[x]
                                                || branch_local@[x]));
                                        } else {
                                            assert(x == m);
                                            assert(vm0[x] == vis_pre_merge[x]);
                                            if branch_local@[m as int] {
                                                assert(visited@[x]);
                                            } else {
                                                assert(visited@[x] == vm0[x]);
                                            }
                                        }
                                    }
                                    assert forall|x: int| m + 1 <= x < n implies (
                                    #[trigger] visited@[x]) == vis_pre_merge[x] by {
                                        assert(visited@[x] == vm0[x]);
                                        assert(vm0[x] == vis_pre_merge[x]);
                                    }
                                }
                                m += 1;
                            }
                            proof {
                                assert(branch_local@ == bw.1);
                                assert(visited@ =~= merge_flags(vis_pre_merge, bw.1));
                            }
                            if !branch_region.is_empty() {
                                let ghost b0 = branches@;
                                branches.push(branch_region);
                                proof {
                                    assert(branches@.drop_last() =~= b0);
                                    lemma_regions_push(b0, branches@);
                                    let f1 = main_fan(nv, lv, fork_targets@.skip(b + 1),
                                        join_idx, visited@, gas as nat);
                                    assert(fan_full.0 =~= regions_view(branches@) + f1.0);
                                }
                            } else {
                                proof {
                                    let f1 = main_fan(nv, lv, fork_targets@.skip(b + 1),
                                        join_idx, visited@, gas as nat);
                                    assert(fan_full.0 =~= regions_view(branches@) + f1.0);
                                }
                            }
                            b += 1;
                        }
                        proof {
                            assert(fork_targets@.skip(fork_targets@.len() as int) =~= Seq::<
                                usize,
                            >::empty());
                            assert(fan_full.0 == regions_view(branches@));
                            assert(fan_full.1 == visited@);
                        }
                        let ghost emitted: Seq<RegionV> = if fan_full.0.len() > 0 {
                            seq![RegionV::Parallel(fan_full.0)]
                        } else {
                            Seq::empty()
                        };
                        if branches.len() > 0 {
                            let ghost r0 = regions@;
                            let ghost bn = regions_names(regions_view(branches@));
                            regions.push(Region::Parallel { branches });
                            proof {
                                assert(regions@.drop_last() =~= r0);
                                lemma_regions_push(r0, regions@);
                                assert(region_names(regions@.last()@) == bn);
                                assert(regions_view(regions@) =~= rv0 + emitted);
                            }
                        } else {
                            proof {
                                assert(regions_view(regions@) =~= rv0 + emitted);
                            }
                        }
                        match join_idx {
                            Some(join) => {
                                if join < n {
                                    visited[join] = true;
                                }
                                proof {
                                    assert(visited@ =~= set_flag(fan_full.1, join as int));
                                    let w1 = build_walk(nv, lv, join + 1, visited@,
                                        gas as nat);
                                    assert(w0.0 == emitted + w1.0);
                                    assert(w0.1 == w1.1);
                                    assert(rv0 + w0.0 =~= regions_view(regions@) + w1.0);
                                }
                                current = join + 1;
                            }
                            None => {
                                proof {
                                    assert(w0.0 == emitted);
                                    assert(w0.1 == fan_full.1);
                                    assert(rv0 + w0.0 =~= regions_view(regions@));
                                }
                                done = true;
                            }
                        }
                    }
                    fk::Node::Join(_) => {
                        visited[current] = true;
                        proof {
                            assert(nv[cur0] is Join);
                            assert(visited@ =~= set_flag(vis0, cur0));
                            let w1 = build_walk(nv, lv, cur0 + 1, visited@, gas as nat);
                            assert(w0.0 == w1.0);
                            assert(w0.1 == w1.1);
                        }
                        current = current + 1;
                    }
                    fk::Node::Goto(target) => {
                        visited[current] = true;
                        proof {
                            assert(nv[cur0] == NodeV::Goto(target@));
                            assert(visited@ =~= set_flag(vis0, cur0));
                        }
                        if text::str_eq(target.as_str(), "end") {
                            proof {
                                assert(w0 == (Seq::<RegionV>::empty(), visited@));
                                assert(rv0 + w0.0 =~= rv0);
                            }
                            done = true;
                        } else {
                            match self.label_index(target) {
                                Some(target_idx) => {
                                    if target_idx < n && !visited[target_idx] {
                                        current = target_idx;
                                    } else {
                                        proof {
                                            assert(w0 == (Seq::<RegionV>::empty(), visited@));
                                            assert(rv0 + w0.0 =~= rv0);
                                        }
                                        done = true;
                                    }
                                }
                                None => {
                                    proof {
                                        assert(w0 == (Seq::<RegionV>::empty(), visited@));
                                        assert(rv0 + w0.0 =~= rv0);
                                    }
                                    done = true;
                                }
                            }
                        }
                    }
                }
            }
        }
        Region::sequence(regions)
    }

    /// Recovers a structured graph from the flow rooted at statement
    /// zero.  The result carries only plain atomics — no dependency
    /// annotations, terminal markers or bare dependencies — and no
    /// atomic name that the program does not contain.
    pub fn to_ir(&self) -> (r: ir::Graph)
        ensures
            crate::par::all_representable(r@),
            ir::nodes_names(r@).subset_of(node_name_set(self.nodes_v())),
            r@ == structure_spec(self.nodes_v(), self.labels_v()),
    {
        broadcast use ir::group_nodes_view;

        let n = self.nodes.len();
        let mut visited = make_flags(n);
        let fuel: usize = if n < usize::MAX / 4 {
            4 * n + 4
        } else {
            usize::MAX
        };
        proof {
            assert(fuel as nat == structure_fuel(self.nodes_v().len()));
        }
        let region = self.build_from_index(0, &mut visited, fuel);
        proof {
            lemma_region_to_ir_plain(region@);
        }
        let ir_node = region_to_ir(&region);
        match ir_node {
            ir::Node::Sequence(children) => {
                proof {
                    assert(region_to_ir_spec(region@) is Sequence);
                    lemma_ir_graph_of_sequence(region_to_ir_spec(region@));
                }
                let g = ir::Graph::new(children);
                proof {
                    assert(g@ == structure_spec(self.nodes_v(), self.labels_v()));
                }
                g
            }
            other => {
                let ghost ov = other@;
                let g = ir::Graph::new(vec![other]);
                proof {
                    assert(g@ =~= seq![ov]);
                    assert(seq![ov].drop_last() =~= Seq::<ir::NodeV>::empty());
                    assert(seq![ov].last() == ov);
                    assert(ir::nodes_names(seq![ov].drop_last()) =~= Set::<Seq<char>>::empty());
                    assert(ir::nodes_names(seq![ov]) =~= ir::node_names(ov));
                    crate::par::lemma_all_representable_pointwise(seq![ov]);
                    assert(g@ == structure_spec(self.nodes_v(), self.labels_v()));
                }
                g
            }
        }
    }
}

/// Unwrapping a sequence node keeps representability and names.
proof fn lemma_ir_graph_of_sequence(n: ir::NodeV)
    requires
        n is Sequence,
        crate::par::representable(n),
    ensures
        crate::par::all_representable(n->Sequence_0),
        ir::nodes_names(n->Sequence_0).subset_of(ir::node_names(n)),
{
}


impl fk::Graph {
    /// Recovers the structured form of this program through its
    /// control-flow graph; see [`ControlFlowGraph::to_ir`].
    pub fn to_ir(&self) -> (r: ir::Graph)
        ensures
            crate::par::all_representable(r@),
            ir::nodes_names(r@).subset_of(node_name_set(stmts_nodes(self@))),
            r@ == structure_spec(stmts_nodes(self@), labels_of(self@)),
    {
        ControlFlowGraph::from_graph(self).to_ir()
    }
}


/// Recovers the structured form of a Fork-Join program.
pub fn to_ir(graph: &fk::Graph) -> (r: ir::Graph)
    ensures
        crate::par::all_representable(r@),
        ir::nodes_names(r@).subset_of(node_name_set(stmts_nodes(graph@))),
        r@ == structure_spec(stmts_nodes(graph@), labels_of(graph@)),
{
    ControlFlowGraph::from_graph(graph).to_ir()
}

} // verus!
