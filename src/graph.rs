//! Nodes of the computation graph and the reachability relation between them.
use vstd::prelude::*;

use crate::backend::{broadcasts, Value};


verus! {

/// How a node was produced. Inputs are indices of earlier nodes on the tape.
#[derive(Debug, PartialEq, Eq)]
pub enum Op {
    /// A value supplied by the caller.
    Leaf,
    /// The seed of a reverse pass: ones shaped like the given node's value.
    /// It is a constant, so no gradient flows through it.
    Ones(usize),
    Add(usize, usize),
    Mul(usize, usize),
    /// Sum of all elements.
    Sum(usize),
    /// Broadcast to the given shape.
    Expand(usize, Vec<usize>),
}

/// The identifier shown for a node: generated for anonymous nodes (`v0`,
/// `v1`, ...), chosen by the caller for named ones.
#[derive(Debug, PartialEq, Eq)]
pub enum Label {
    Anonymous(usize),
    Named(String),
}

/// One value of the graph.
pub struct Node {
    pub value: Value,
    pub label: Label,
    pub op: Op,
}

/// A handle to a node of a tape.
#[derive(Clone, Copy, PartialEq, Eq, Debug)]
pub struct Var {
    pub index: usize,
}

/// `i` is one of the inputs of `op`.
pub open spec fn is_input(op: Op, i: int) -> bool {
    match op {
        Op::Add(a, b) => a == i || b == i,
        Op::Mul(a, b) => a == i || b == i,
        Op::Sum(a) => a == i,
        Op::Expand(a, _) => a == i,
        _ => false,
    }
}

/// Every input of `op` comes before position `j`.
pub open spec fn inputs_before(op: Op, j: int) -> bool {
    match op {
        Op::Ones(a) => a < j,
        Op::Add(a, b) => a < j && b < j,
        Op::Mul(a, b) => a < j && b < j,
        Op::Sum(a) => a < j,
        Op::Expand(a, _) => a < j,
        Op::Leaf => true,
    }
}

/// Node `i` is a direct input of node `j`.
pub open spec fn edge(nodes: Seq<Node>, i: int, j: int) -> bool {
    0 <= j < nodes.len() && is_input(nodes[j].op, i)
}

/// The `k`-th node of `p` is an input of the next one.
pub open spec fn step(nodes: Seq<Node>, p: Seq<int>, k: int) -> bool {
    edge(nodes, p[k], p[k + 1])
}

/// A chain of nodes, each an input of the next.
pub open spec fn is_path(nodes: Seq<Node>, p: Seq<int>) -> bool {
    &&& p.len() >= 1
    &&& forall|k: int| 0 <= k < p.len() - 1 ==> #[trigger] step(nodes, p, k)
}

/// The value of node `out` was computed, directly or not, from node `i`
/// (every node reaches itself).
pub open spec fn reaches(nodes: Seq<Node>, i: int, out: int) -> bool {
    &&& 0 <= out < nodes.len()
    &&& exists|p: Seq<int>| #[trigger] is_path(nodes, p) && p[0] == i && p.last() == out
}

/// The value `v` of a node produced by `op` has the shape and kind that the
/// backend gives such a result: that of the operands for `Ones`, `Add` and
/// `Mul` (whose operands have one shape), no dimensions for `Sum`, the target
/// shape (which the operand broadcasts to) for `Expand`.
pub open spec fn value_fits(nodes: Seq<Node>, op: Op, v: Value) -> bool {
    match op {
        Op::Leaf => true,
        Op::Ones(a) => v.like(&nodes[a as int].value),
        Op::Add(a, b) => v.like(&nodes[a as int].value) && nodes[a as int].value.shape()
            == nodes[b as int].value.shape(),
        Op::Mul(a, b) => v.like(&nodes[a as int].value) && nodes[a as int].value.shape()
            == nodes[b as int].value.shape(),
        Op::Sum(a) => v.shape() == Seq::<usize>::empty() && v.same_kind(&nodes[a as int].value),
        Op::Expand(a, s) => v.shape() == s@ && broadcasts(nodes[a as int].value.shape(), s@)
            && v.same_kind(&nodes[a as int].value),
    }
}

/// The graph is recorded in creation order, inputs before their users, and
/// each value fits the operation that produced it.
pub open spec fn nodes_wf(nodes: Seq<Node>) -> bool {
    forall|j: int|
        0 <= j < nodes.len() ==> inputs_before(#[trigger] nodes[j].op, j) && value_fits(
            nodes,
            nodes[j].op,
            nodes[j].value,
        )
}

/// Every slot that holds a node index points into `[lo, hi)`.
pub open spec fn slots_within(slots: Seq<Option<usize>>, lo: int, hi: int) -> bool {
    forall|t: int| 0 <= t < slots.len() ==> (#[trigger] slots[t] matches Some(g) ==> lo <= g < hi)
}

pub open spec fn occurrences(s: Seq<Var>, w: int) -> nat
    decreases s.len(),
{
    if s.len() == 0 {
        0
    } else {
        occurrences(s.drop_last(), w) + if s.last().index == w {
            1nat
        } else {
            0nat
        }
    }
}

/// The input of `op` in position `pos`, if it has one there.
pub open spec fn input_at(op: Op, pos: int) -> Option<int> {
    match op {
        Op::Add(a, b) => if pos == 0 {
            Some(a as int)
        } else if pos == 1 {
            Some(b as int)
        } else {
            None
        },
        Op::Mul(a, b) => if pos == 0 {
            Some(a as int)
        } else if pos == 1 {
            Some(b as int)
        } else {
            None
        },
        Op::Sum(a) => if pos == 0 {
            Some(a as int)
        } else {
            None
        },
        Op::Expand(a, _) => if pos == 0 {
            Some(a as int)
        } else {
            None
        },
        _ => None,
    }
}

/// The positions, in order, in which node `j` takes node `w` as input, as
/// pairs (node, position).
pub open spec fn uses(nodes: Seq<Node>, j: int, w: int) -> Seq<(int, int)> {
    let first = if input_at(nodes[j].op, 0) == Some(w) {
        seq![(j, 0int)]
    } else {
        Seq::empty()
    };
    let second = if input_at(nodes[j].op, 1) == Some(w) {
        seq![(j, 1int)]
    } else {
        Seq::empty()
    };
    first + second
}

/// The contributions that a reverse pass from `out` makes to the gradient of
/// `w` while it visits the nodes from the newest down to position `k`, in
/// the order in which it makes them: one for each position in which a node
/// that reaches `out` takes `w` as input.
pub open spec fn contributions(nodes: Seq<Node>, out: int, w: int, k: int) -> Seq<(int, int)>
    decreases nodes.len() - k,
{
    if k < 0 || k >= nodes.len() {
        Seq::empty()
    } else {
        let rest = contributions(nodes, out, w, k + 1);
        if reaches(nodes, k, out) {
            rest + uses(nodes, k, w)
        } else {
            rest
        }
    }
}

/// Node `x` of `tape` is what the local gradient rule of node `j` sends to
/// its input in position `pos`, when the gradient of `j` is node `g`: the
/// gradient itself through a sum, `g * b` and `g * a` through a product
/// `a * b`, `g` broadcast back to the operand's shape through a reduction,
/// `g` summed through a broadcast.
pub open spec fn is_contribution(tape: Seq<Node>, x: int, j: int, pos: int, g: int) -> bool {
    &&& 0 <= x < tape.len()
    &&& 0 <= j < tape.len()
    &&& match tape[j].op {
        Op::Add(_, _) => x == g,
        Op::Mul(a, b) => tape[x].op == (if pos == 0 {
            Op::Mul(g as usize, b)
        } else {
            Op::Mul(g as usize, a)
        }),
        Op::Sum(a) => {
            &&& a < tape.len()
            &&& tape[x].op matches Op::Expand(y, s) && y == g && s@ == tape[a as int].value.shape()
        },
        Op::Expand(_, _) => tape[x].op == Op::Sum(g as usize),
        _ => false,
    }
}

/// Node `x` of `tape` is the sum of the contributions `cs`, added up in
/// order (`((c0 + c1) + c2) + ...`), where the gradient of each
/// contributing node `j` is `adj[j]`.
pub open spec fn is_sum_of(tape: Seq<Node>, x: int, cs: Seq<(int, int)>, adj: Seq<Option<usize>>) -> bool
    decreases cs.len(),
{
    if cs.len() == 0 {
        false
    } else {
        let j = cs.last().0;
        let pos = cs.last().1;
        if cs.len() == 1 {
            &&& 0 <= j < adj.len()
            &&& adj[j] matches Some(g)
            &&& is_contribution(tape, x, j, pos, g as int)
        } else {
            &&& 0 <= x < tape.len()
            &&& tape[x].op matches Op::Add(y, z)
            &&& is_sum_of(tape, y as int, cs.drop_last(), adj)
            &&& 0 <= j < adj.len()
            &&& adj[j] matches Some(g)
            &&& is_contribution(tape, z as int, j, pos, g as int)
        }
    }
}

/// A working gradient slot: empty while no contribution has arrived, else
/// the sum of the contributions `cs` so far.
pub open spec fn slot_holds(tape: Seq<Node>, slot: Option<usize>, cs: Seq<(int, int)>, adj: Seq<Option<usize>>) -> bool {
    ||| slot is None && cs.len() == 0
    ||| slot matches Some(p) && is_sum_of(tape, p as int, cs, adj)
}

/// `adj` gives, for each node of `nodes`, its gradient in a reverse pass from
/// `out` that recorded its gradient nodes on `tape`: the seed (the first node
/// after `nodes`) for `out` itself; for every other node nothing when no node
/// that reaches `out` takes it as input, else the sum, in the order of the
/// pass, of what the local rule of each such use sends back.
pub open spec fn is_adjoint_map(tape: Seq<Node>, nodes: Seq<Node>, out: int, adj: Seq<Option<usize>>) -> bool {
    &&& adj.len() == nodes.len()
    &&& 0 <= out < nodes.len()
    &&& adj[out] == Some(nodes.len() as usize)
    &&& forall|w: int|
        0 <= w < nodes.len() && w != out ==> slot_holds(tape, #[trigger] adj[w], contributions(nodes, out, w, 0), adj)
}

/// A reverse pass from `out` is owed success: `out` is a float tensor on
/// the CPU, every node that reaches `out` has `out`'s dtype and placement,
/// and every broadcast among them broadcasts a value without dimensions (its
/// gradient is summed back to that shape).
pub open spec fn pass_succeeds(nodes: Seq<Node>, out: int) -> bool {
    &&& nodes[out].value.supported()
    &&& forall|j: int|
        0 <= j < nodes.len() && #[trigger] reaches(nodes, j, out) ==> {
            &&& nodes[j].value.same_kind(&nodes[out].value)
            &&& (nodes[j].op matches Op::Expand(a, _) ==> nodes[a as int].value.shape().len() == 0)
        }
}

/// Every working slot points at a node of `tape` with element type `dt`.
pub open spec fn slots_typed(tape: Seq<Node>, dl: Seq<Option<usize>>, dt: crate::backend::ElemType) -> bool {
    forall|t: int|
        0 <= t < dl.len() ==> (#[trigger] dl[t] matches Some(p) ==> p < tape.len() && tape[p as int].value.dtype()
            == dt)
}

/// `big` holds the nodes of `small` unchanged at the same positions.
pub open spec fn prefix_of(small: Seq<Node>, big: Seq<Node>) -> bool {
    &&& small.len() <= big.len()
    &&& forall|i: int| 0 <= i < small.len() ==> #[trigger] big[i] == small[i]
}

pub proof fn lemma_sum_of_grows(tape: Seq<Node>, big: Seq<Node>, x: int, cs: Seq<(int, int)>, adj: Seq<
    Option<usize>,
>)
    requires
        is_sum_of(tape, x, cs, adj),
        prefix_of(tape, big),
    ensures
        is_sum_of(big, x, cs, adj),
    decreases cs.len(),
{
    if cs.len() > 1 {
        let y = tape[x].op->Add_0;
        lemma_sum_of_grows(tape, big, y as int, cs.drop_last(), adj);
        assert(big[x] == tape[x]);
        let z = tape[x].op->Add_1;
        assert(big[z as int] == tape[z as int]);
        assert(big[cs.last().0] == tape[cs.last().0]);
    } else {
        assert(big[x] == tape[x]);
        assert(big[cs.last().0] == tape[cs.last().0]);
    }
}

pub proof fn lemma_sum_of_frame(tape: Seq<Node>, x: int, cs: Seq<(int, int)>, adj: Seq<Option<usize>>, adj2: Seq<
    Option<usize>,
>)
    requires
        is_sum_of(tape, x, cs, adj),
        adj.len() == adj2.len(),
        forall|t: int| 0 <= t < cs.len() ==> adj2[#[trigger] cs[t].0] == adj[cs[t].0],
    ensures
        is_sum_of(tape, x, cs, adj2),
    decreases cs.len(),
{
    assert(adj2[cs[cs.len() - 1].0] == adj[cs[cs.len() - 1].0]);
    if cs.len() > 1 {
        let y = tape[x].op->Add_0;
        let d = cs.drop_last();
        assert forall|t: int| 0 <= t < d.len() implies adj2[#[trigger] d[t].0] == adj[d[t].0] by {
            assert(d[t] == cs[t]);
        }
        lemma_sum_of_frame(tape, y as int, d, adj, adj2);
    }
}

/// Every contribution counted from position `k` on comes from a node at or
/// after `k` that takes `w` as input.
pub proof fn lemma_contributions_from(nodes: Seq<Node>, out: int, w: int, k: int)
    requires
        0 <= k,
    ensures
        forall|t: int|
            0 <= t < contributions(nodes, out, w, k).len() ==> {
                let e = #[trigger] contributions(nodes, out, w, k)[t];
                &&& k <= e.0 < nodes.len()
                &&& input_at(nodes[e.0].op, e.1) == Some(w)
            },
    decreases nodes.len() - k,
{
    if k < nodes.len() {
        lemma_contributions_from(nodes, out, w, k + 1);
        let rest = contributions(nodes, out, w, k + 1);
        let u = uses(nodes, k, w);
        assert forall|t: int| 0 <= t < contributions(nodes, out, w, k).len() implies {
            let e = #[trigger] contributions(nodes, out, w, k)[t];
            &&& k <= e.0 < nodes.len()
            &&& input_at(nodes[e.0].op, e.1) == Some(w)
        } by {
            if reaches(nodes, k, out) && t >= rest.len() {
                assert(contributions(nodes, out, w, k)[t] == u[t - rest.len()]);
            } else {
                assert(contributions(nodes, out, w, k)[t] == rest[t]);
            }
        }
    }
}

pub proof fn lemma_occurrences_step(s: Seq<Var>, t: int, w: int)
    requires
        0 <= t < s.len(),
    ensures
        occurrences(s.subrange(0, t + 1), w) == occurrences(s.subrange(0, t), w) + if s[t].index
            == w {
            1nat
        } else {
            0nat
        },
{
    assert(s.subrange(0, t + 1).drop_last() =~= s.subrange(0, t));
}

pub proof fn lemma_edge_forward(nodes: Seq<Node>, i: int, j: int)
    requires
        nodes_wf(nodes),
        edge(nodes, i, j),
    ensures
        i < j,
{
    assert(inputs_before(nodes[j].op, j));
}

/// A node reaches `out` exactly when it is `out` or an input of a node that
/// reaches `out`.
pub proof fn lemma_reaches_unfold(nodes: Seq<Node>, i: int, out: int)
    requires
        0 <= out < nodes.len(),
    ensures
        reaches(nodes, i, out) <==> (i == out || exists|j: int|
            #[trigger] edge(nodes, i, j) && reaches(nodes, j, out)),
{
    if reaches(nodes, i, out) && i != out {
        let p = choose|p: Seq<int>| #[trigger] is_path(nodes, p) && p[0] == i && p.last() == out;
        assert(p.len() >= 2);
        let q = p.drop_first();
        assert forall|k: int| 0 <= k < q.len() - 1 implies #[trigger] step(nodes, q, k) by {
            assert(step(nodes, p, k + 1));
        }
        assert(is_path(nodes, q));
        assert(step(nodes, p, 0));
        assert(edge(nodes, i, q[0]) && reaches(nodes, q[0], out));
    }
    if i == out {
        let p = seq![i];
        assert(is_path(nodes, p));
    }
    if i != out && exists|j: int| #[trigger] edge(nodes, i, j) && reaches(nodes, j, out) {
        let j = choose|j: int| #[trigger] edge(nodes, i, j) && reaches(nodes, j, out);
        let q = choose|q: Seq<int>| #[trigger] is_path(nodes, q) && q[0] == j && q.last() == out;
        let p = seq![i] + q;
        assert forall|k: int| 0 <= k < p.len() - 1 implies #[trigger] step(nodes, p, k) by {
            if k > 0 {
                assert(p[k] == q[k - 1] && p[k + 1] == q[k]);
                assert(step(nodes, q, k - 1));
            }
        }
        assert(is_path(nodes, p));
        assert(p.last() == q.last());
    }
}

/// Along a path the positions on the tape grow.
pub proof fn lemma_path_rises(nodes: Seq<Node>, p: Seq<int>, k: int)
    requires
        nodes_wf(nodes),
        is_path(nodes, p),
        0 <= k < p.len(),
    ensures
        p[0] <= p[k],
    decreases k,
{
    if k > 0 {
        lemma_path_rises(nodes, p, k - 1);
        assert(step(nodes, p, k - 1));
        lemma_edge_forward(nodes, p[k - 1], p[k]);
    }
}

/// Nodes created after `out` cannot reach it.
pub proof fn lemma_reaches_before(nodes: Seq<Node>, i: int, out: int)
    requires
        nodes_wf(nodes),
        reaches(nodes, i, out),
    ensures
        i <= out,
{
    let p = choose|p: Seq<int>| #[trigger] is_path(nodes, p) && p[0] == i && p.last() == out;
    lemma_path_rises(nodes, p, p.len() - 1);
}

} // verus!
