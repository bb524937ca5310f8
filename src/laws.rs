//! Properties of the reverse pass that follow from the contracts of `Ops`.
use vstd::prelude::*;

use crate::graph::{
    contributions, edge, is_adjoint_map, is_input, is_sum_of, lemma_reaches_before, lemma_reaches_unfold,
    nodes_wf, occurrences, reaches, uses, Node, Op, Var,
};
use crate::tape::Ops;

verus! {

/// A node that `l` was not computed from gets no gradient from a pass on
/// `l`, whenever it is asked for; one asked for once that `l` was computed
/// from gets one.
pub proof fn lemma_gradient_present_iff_contributes(old: &Ops, new: &Ops, l: Var, wanted: Seq<Var>, w: Var)
    requires
        old.wf(),
        new.reverse_pass_done(old, l, wanted),
        old.valid(w),
        occurrences(wanted, w.index as int) >= 1,
    ensures
        !reaches(old.nodes(), w.index as int, l.index as int) ==> new.gradient_of(w) is None,
        occurrences(wanted, w.index as int) == 1 ==> (new.gradient_of(w) is Some <==> reaches(
            old.nodes(),
            w.index as int,
            l.index as int,
        )),
{
    assert(0 <= w.index < old.nodes().len());
}

/// A node created after `l` was not used to compute it, so a pass on `l`
/// leaves it without a gradient.
pub proof fn lemma_later_node_has_no_gradient(old: &Ops, new: &Ops, l: Var, wanted: Seq<Var>, w: Var)
    requires
        old.wf(),
        old.valid(l),
        new.reverse_pass_done(old, l, wanted),
        old.valid(w),
        l.index < w.index,
        occurrences(wanted, w.index as int) >= 1,
    ensures
        new.gradient_of(w) is None,
{
    if reaches(old.nodes(), w.index as int, l.index as int) {
        crate::graph::lemma_reaches_before(old.nodes(), w.index as int, l.index as int);
    }
}

/// The gradient of the output with respect to itself is the seed of the
/// pass: the node of ones shaped like the output, created first.
pub proof fn lemma_output_gradient_is_seed(old: &Ops, new: &Ops, l: Var, wanted: Seq<Var>)
    requires
        old.wf(),
        old.valid(l),
        new.reverse_pass_done(old, l, wanted),
        occurrences(wanted, l.index as int) == 1,
    ensures
        new.gradient_of(l) == Some(Var { index: old.nodes().len() as usize }),
        new.nodes()[old.nodes().len() as int].op == Op::Ones(l.index),
{
}

/// Asking for two distinct nodes asks for each once; asking for one node
/// (`a == b`, read as the list `[a]`) asks for it once.
proof fn lemma_two_wanted(a: Var, b: Var)
    ensures
        occurrences(seq![a], a.index as int) == 1,
        a.index != b.index ==> occurrences(seq![a, b], a.index as int) == 1 && occurrences(
            seq![a, b],
            b.index as int,
        ) == 1,
{
    assert(seq![a].drop_last() =~= Seq::<Var>::empty());
    assert(seq![a, b].drop_last() =~= seq![a]);
    assert(occurrences(Seq::<Var>::empty(), a.index as int) == 0);
    assert(occurrences(Seq::<Var>::empty(), b.index as int) == 0);
    assert(occurrences(seq![a], a.index as int) == 1);
    if a.index != b.index {
        assert(occurrences(seq![a], b.index as int) == 0);
        assert(occurrences(seq![a, b], a.index as int) == 1);
        assert(occurrences(seq![a, b], b.index as int) == 1);
    }
}

/// The contributions to `w` counted from `k` on are the uses of `w` by `j0`
/// alone, when no other node from `k` on that reaches `out` uses `w`.
proof fn lemma_single_consumer(nodes: Seq<Node>, out: int, w: int, k: int, j0: int)
    requires
        0 <= k <= j0 < nodes.len(),
        reaches(nodes, j0, out),
        forall|j: int| k <= j < nodes.len() && j != j0 && reaches(nodes, j, out) ==> #[trigger] uses(nodes, j, w).len() == 0,
    ensures
        contributions(nodes, out, w, k) == uses(nodes, j0, w),
    decreases nodes.len() - k,
{
    if k < j0 {
        lemma_single_consumer(nodes, out, w, k + 1, j0);
        if reaches(nodes, k, out) {
            assert(uses(nodes, k, w).len() == 0);
            assert(contributions(nodes, out, w, k) =~= contributions(nodes, out, w, k + 1));
        }
    } else {
        lemma_no_consumer(nodes, out, w, k + 1, j0);
        assert(contributions(nodes, out, w, k) =~= uses(nodes, j0, w));
    }
}

proof fn lemma_no_consumer(nodes: Seq<Node>, out: int, w: int, k: int, j0: int)
    requires
        0 <= j0 < k,
        forall|j: int| j0 < j < nodes.len() && reaches(nodes, j, out) ==> #[trigger] uses(nodes, j, w).len() == 0,
    ensures
        contributions(nodes, out, w, k).len() == 0,
    decreases nodes.len() - k,
{
    if k < nodes.len() {
        lemma_no_consumer(nodes, out, w, k + 1, j0);
        if reaches(nodes, k, out) {
            assert(uses(nodes, k, w).len() == 0);
        }
    }
}

/// A node other than `c` that reaches `c` reaches one of `c`'s inputs `a`
/// and `b`.
proof fn lemma_reaches_an_input(nodes: Seq<Node>, c: int, a: int, b: int, j: int)
    requires
        nodes_wf(nodes),
        0 <= c < nodes.len(),
        forall|x: int| is_input(nodes[c].op, x) <==> (x == a || x == b),
        reaches(nodes, j, c),
        j != c,
    ensures
        reaches(nodes, j, a) || reaches(nodes, j, b),
    decreases c - j,
{
    lemma_reaches_unfold(nodes, j, c);
    let m = choose|m: int| #[trigger] edge(nodes, j, m) && reaches(nodes, m, c);
    crate::graph::lemma_edge_forward(nodes, j, m);
    lemma_reaches_before(nodes, m, c);
    assert(crate::graph::inputs_before(nodes[c].op, c));
    if m == c {
        assert(j == a || j == b);
        lemma_reaches_unfold(nodes, j, j);
        assert(0 <= j < nodes.len());
    } else {
        lemma_reaches_an_input(nodes, c, a, b, m);
        if reaches(nodes, m, a) {
            assert(0 <= a < nodes.len());
            lemma_reaches_unfold(nodes, j, a);
        } else {
            assert(0 <= b < nodes.len());
            lemma_reaches_unfold(nodes, j, b);
        }
    }
}

/// When neither input of `c` reaches the other, no node but `c` that
/// reaches `c` takes either of them as input.
proof fn lemma_independent_inputs(nodes: Seq<Node>, c: int, a: int, b: int, j: int)
    requires
        nodes_wf(nodes),
        0 <= c < nodes.len(),
        0 <= j < nodes.len(),
        forall|x: int| is_input(nodes[c].op, x) <==> (x == a || x == b),
        !reaches(nodes, a, b),
        !reaches(nodes, b, a),
        reaches(nodes, j, c),
        j != c,
    ensures
        uses(nodes, j, a).len() == 0,
        uses(nodes, j, b).len() == 0,
{
    assert(crate::graph::inputs_before(nodes[c].op, c));
    assert(is_input(nodes[c].op, a) && is_input(nodes[c].op, b));
    assert(0 <= a < nodes.len() && 0 <= b < nodes.len());
    lemma_reaches_an_input(nodes, c, a, b, j);
    if uses(nodes, j, a).len() != 0 || uses(nodes, j, b).len() != 0 {
        let x = if uses(nodes, j, a).len() != 0 { a } else { b };
        let y = if x == a { b } else { a };
        assert(is_input(nodes[j].op, x));
        assert(edge(nodes, x, j));
        crate::graph::lemma_edge_forward(nodes, x, j);
        if reaches(nodes, j, x) {
            lemma_reaches_before(nodes, j, x);
        } else {
            assert(reaches(nodes, j, y));
            lemma_reaches_unfold(nodes, x, y);
            assert(reaches(nodes, x, y));
        }
    }
}

/// In a pass from `c`, whose inputs are exactly the distinct nodes `a` and
/// `b` in that order, neither reaching the other, each of them receives one
/// contribution, from `c`.
proof fn lemma_two_inputs(old: &Ops, new: &Ops, c: Var, a: Var, b: Var) -> (adj: Seq<Option<usize>>)
    requires
        old.wf(),
        old.valid(c),
        old.nodes()[c.index as int].op == Op::Add(a.index, b.index) || old.nodes()[c.index as int].op
            == Op::Mul(a.index, b.index),
        !reaches(old.nodes(), a.index as int, b.index as int),
        !reaches(old.nodes(), b.index as int, a.index as int),
        a != b,
        new.reverse_pass_done(old, c, seq![a, b]),
    ensures
        is_adjoint_map(new.nodes(), old.nodes(), c.index as int, adj),
        new.grads()[a.index as int] == adj[a.index as int],
        new.grads()[b.index as int] == adj[b.index as int],
        contributions(old.nodes(), c.index as int, a.index as int, 0) == seq![(c.index as int, 0int)],
        contributions(old.nodes(), c.index as int, b.index as int, 0) == seq![(c.index as int, 1int)],
        new.nodes()[c.index as int] == old.nodes()[c.index as int],
        new.nodes()[old.nodes().len() as int].op == Op::Ones(c.index),
{
    let nodes = old.nodes();
    let n = nodes.len() as int;
    let (ai, bi, ci) = (a.index as int, b.index as int, c.index as int);
    let wanted = seq![a, b];
    assert(ai != bi);
    assert(crate::graph::inputs_before(nodes[ci].op, ci));
    lemma_two_wanted(a, b);
    let adj = choose|adj: Seq<Option<usize>>|
        {
            &&& #[trigger] is_adjoint_map(new.nodes(), nodes, ci, adj)
            &&& forall|w: int| 0 <= w < n && occurrences(wanted, w) == 1 ==> #[trigger] new.grads()[w] == adj[w]
        };
    assert(new.grads()[ai] == adj[ai]);
    assert(new.grads()[bi] == adj[bi]);
    lemma_reaches_unfold(nodes, ci, ci);
    assert forall|j: int| 0 <= j < n && j != ci && reaches(nodes, j, ci) implies #[trigger] uses(nodes, j, ai).len() == 0 by {
        lemma_independent_inputs(nodes, ci, ai, bi, j);
    }
    assert forall|j: int| 0 <= j < n && j != ci && reaches(nodes, j, ci) implies #[trigger] uses(nodes, j, bi).len() == 0 by {
        lemma_independent_inputs(nodes, ci, ai, bi, j);
    }
    lemma_single_consumer(nodes, ci, ai, 0, ci);
    lemma_single_consumer(nodes, ci, bi, 0, ci);
    assert(uses(nodes, ci, ai) =~= seq![(ci, 0int)]);
    assert(uses(nodes, ci, bi) =~= seq![(ci, 1int)]);
    assert(new.nodes()[ci] == nodes[ci]) by {
        assert(new.nodes().subrange(0, n)[ci] == new.nodes()[ci]);
    }
    adj
}

/// A sum of two distinct nodes, neither computed from the other, passes the
/// seed (ones shaped like the sum) to each of them unchanged: both gradients
/// are one. (When `b` is computed from `a`, `a` also gets `b`'s gradient.)
pub proof fn lemma_add_passes_seed_to_both(old: &Ops, new: &Ops, c: Var, a: Var, b: Var)
    requires
        old.wf(),
        old.valid(c),
        old.nodes()[c.index as int].op == Op::Add(a.index, b.index),
        !reaches(old.nodes(), a.index as int, b.index as int),
        !reaches(old.nodes(), b.index as int, a.index as int),
        a != b,
        new.reverse_pass_done(old, c, seq![a, b]),
    ensures
        new.gradient_of(a) == Some(Var { index: old.nodes().len() as usize }),
        new.gradient_of(b) == Some(Var { index: old.nodes().len() as usize }),
        new.nodes()[old.nodes().len() as int].op == Op::Ones(c.index),
{
    let adj = lemma_two_inputs(old, new, c, a, b);
    assert(adj[a.index as int] is Some);
    assert(adj[b.index as int] is Some);
}

/// Product rule: for a product `c = a * b` of two distinct nodes, neither
/// computed from the other, the gradient of `a` is a node `seed * b` and
/// that of `b` a node `seed * a`, where the seed is the node of ones shaped
/// like `c`.
pub proof fn lemma_product_rule(old: &Ops, new: &Ops, c: Var, a: Var, b: Var)
    requires
        old.wf(),
        old.valid(c),
        old.nodes()[c.index as int].op == Op::Mul(a.index, b.index),
        !reaches(old.nodes(), a.index as int, b.index as int),
        !reaches(old.nodes(), b.index as int, a.index as int),
        a != b,
        new.reverse_pass_done(old, c, seq![a, b]),
    ensures
        new.gradient_of(a) matches Some(ga) && new.nodes()[ga.index as int].op == Op::Mul(
            old.nodes().len() as usize,
            b.index,
        ),
        new.gradient_of(b) matches Some(gb) && new.nodes()[gb.index as int].op == Op::Mul(
            old.nodes().len() as usize,
            a.index,
        ),
        new.nodes()[old.nodes().len() as int].op == Op::Ones(c.index),
{
    let adj = lemma_two_inputs(old, new, c, a, b);
    assert(adj[a.index as int] is Some);
    assert(adj[b.index as int] is Some);
}

/// In the graph `t = a + b`, `l = t * b` over two leaves, only `l`, `t`, `a`
/// and `b` reach `l`.
proof fn lemma_reaching_composite(nodes: Seq<Node>, l: usize, t: usize, a: usize, b: usize, j: int)
    requires
        nodes_wf(nodes),
        a < nodes.len(),
        b < nodes.len(),
        t < l < nodes.len(),
        nodes[a as int].op is Leaf,
        nodes[b as int].op is Leaf,
        nodes[t as int].op == Op::Add(a, b),
        nodes[l as int].op == Op::Mul(t, b),
        reaches(nodes, j, l as int),
    ensures
        j == l || j == t || j == a || j == b,
    decreases l - j,
{
    lemma_reaches_unfold(nodes, j, l as int);
    if j != l {
        let m = choose|m: int| #[trigger] edge(nodes, j, m) && reaches(nodes, m, l as int);
        crate::graph::lemma_edge_forward(nodes, j, m);
        lemma_reaches_before(nodes, m, l as int);
        assert(is_input(nodes[m].op, j));
        if m != l {
            lemma_reaching_composite(nodes, l, t, a, b, m);
            assert(m == t);
        }
    }
}

/// Contributions counted from `k` equal those counted from `m` when no node
/// in between that reaches `out` uses `w`.
proof fn lemma_skip_unused(nodes: Seq<Node>, out: int, w: int, k: int, m: int)
    requires
        0 <= k <= m <= nodes.len(),
        forall|j: int| k <= j < m && reaches(nodes, j, out) ==> #[trigger] uses(nodes, j, w).len() == 0,
    ensures
        contributions(nodes, out, w, k) == contributions(nodes, out, w, m),
    decreases m - k,
{
    if k < m {
        lemma_skip_unused(nodes, out, w, k + 1, m);
        if reaches(nodes, k, out) {
            assert(contributions(nodes, out, w, k) =~= contributions(nodes, out, w, k + 1));
        }
    }
}

/// For `t = a + b` and `l = t * b` over two distinct leaves, a pass from `l`
/// gives `a` the gradient `seed * b` and `b` the gradient
/// `seed * t + seed * b` (the contribution through the product first, then
/// the one through the sum), where the seed is the node of ones shaped like
/// `l`: the derivatives `b` and `t + b`.
pub proof fn lemma_composite_gradients(old: &Ops, new: &Ops, l: Var, t: Var, a: Var, b: Var)
    requires
        old.wf(),
        old.valid(l),
        old.valid(t),
        old.valid(a),
        old.valid(b),
        old.nodes()[t.index as int].op == Op::Add(a.index, b.index),
        old.nodes()[l.index as int].op == Op::Mul(t.index, b.index),
        old.nodes()[a.index as int].op is Leaf,
        old.nodes()[b.index as int].op is Leaf,
        a != b,
        new.reverse_pass_done(old, l, seq![a, b]),
    ensures
        new.nodes()[old.nodes().len() as int].op == Op::Ones(l.index),
        new.gradient_of(a) matches Some(ga) && new.nodes()[ga.index as int].op == Op::Mul(
            old.nodes().len() as usize,
            b.index,
        ),
        new.gradient_of(b) matches Some(gb) && new.nodes()[gb.index as int].op matches Op::Add(y, z) && new.nodes()[y as int].op == Op::Mul(
            old.nodes().len() as usize,
            t.index,
        ) && new.gradient_of(a) == Some(Var { index: z }),
{
    let nodes = old.nodes();
    let tape = new.nodes();
    let n = nodes.len() as int;
    let (ai, bi, ti, li) = (a.index as int, b.index as int, t.index as int, l.index as int);
    let wanted = seq![a, b];
    assert(ai != bi);
    assert(crate::graph::inputs_before(nodes[ti].op, ti));
    assert(crate::graph::inputs_before(nodes[li].op, li));
    assert(ti != ai && ti != bi && li != ai && li != bi && li != ti);
    lemma_two_wanted(a, b);
    let adj = choose|adj: Seq<Option<usize>>|
        {
            &&& #[trigger] is_adjoint_map(tape, nodes, li, adj)
            &&& forall|w: int| 0 <= w < n && occurrences(wanted, w) == 1 ==> #[trigger] new.grads()[w] == adj[w]
        };
    assert(new.grads()[ai] == adj[ai]);
    assert(new.grads()[bi] == adj[bi]);
    assert(tape[li] == nodes[li] && tape[ti] == nodes[ti]) by {
        assert(tape.subrange(0, n)[li] == tape[li]);
        assert(tape.subrange(0, n)[ti] == tape[ti]);
    }
    lemma_reaches_unfold(nodes, li, li);
    lemma_reaches_unfold(nodes, ti, li);
    assert(edge(nodes, ti, li));
    assert(reaches(nodes, ti, li));
    // Contributions to t: from l alone.
    assert forall|j: int| 0 <= j < n && j != li && reaches(nodes, j, li) implies #[trigger] uses(nodes, j, ti).len() == 0 by {
        lemma_reaching_composite(nodes, l.index, t.index, a.index, b.index, j);
    }
    lemma_single_consumer(nodes, li, ti, 0, li);
    assert(uses(nodes, li, ti) =~= seq![(li, 0int)]);
    // Contributions to a: from t alone.
    assert forall|j: int| 0 <= j < n && j != ti && reaches(nodes, j, li) implies #[trigger] uses(nodes, j, ai).len() == 0 by {
        lemma_reaching_composite(nodes, l.index, t.index, a.index, b.index, j);
    }
    lemma_single_consumer(nodes, li, ai, 0, ti);
    assert(uses(nodes, ti, ai) =~= seq![(ti, 0int)]);
    // Contributions to b: from l, then from t.
    assert forall|j: int| 0 <= j < n && j != li && reaches(nodes, j, li) && j != ti implies #[trigger] uses(nodes, j, bi).len() == 0 by {
        lemma_reaching_composite(nodes, l.index, t.index, a.index, b.index, j);
    }
    lemma_single_consumer(nodes, li, bi, ti + 1, li);
    lemma_skip_unused(nodes, li, bi, 0, ti);
    assert(uses(nodes, li, bi) =~= seq![(li, 1int)]);
    assert(uses(nodes, ti, bi) =~= seq![(ti, 1int)]);
    let cb = contributions(nodes, li, bi, 0);
    assert(cb =~= seq![(li, 1int), (ti, 1int)]);
    assert(cb.drop_last() =~= seq![(li, 1int)]);
    assert(adj[ti] is Some);
    assert(adj[ai] is Some);
    assert(adj[bi] is Some);
    assert(adj[ai] == adj[ti]);
    let gbi = adj[bi]->0 as int;
    let y = tape[gbi].op->Add_0;
    let z = tape[gbi].op->Add_1;
    assert(is_sum_of(tape, y as int, cb.drop_last(), adj));
    assert(adj[li] == Some(n as usize));
    assert(crate::graph::is_contribution(tape, y as int, li, 1, n));
    assert(tape[y as int].op == Op::Mul(n as usize, t.index));
    assert(crate::graph::is_contribution(tape, z as int, ti, 1, adj[ti]->0 as int));
    assert(z == adj[ti]->0);
}

/// For the reduction `s = sum(a)` of any node, a pass from `s` gives `a` the
/// seed (ones shaped like `s`) broadcast back to `a`'s shape: a node that
/// expands the seed, whose value has `a`'s shape, dtype and device.
pub proof fn lemma_sum_gradient_expands_seed(old: &Ops, new: &Ops, s: Var, a: Var)
    requires
        old.wf(),
        old.valid(s),
        old.nodes()[s.index as int].op == Op::Sum(a.index),
        new.wf(),
        new.reverse_pass_done(old, s, seq![a]),
    ensures
        new.nodes()[old.nodes().len() as int].op == Op::Ones(s.index),
        new.gradient_of(a) matches Some(ga) && new.nodes()[ga.index as int].op matches Op::Expand(g, shape)
            && g == old.nodes().len() && shape@ == old.nodes()[a.index as int].value.shape()
            && new.nodes()[ga.index as int].value.like(&old.nodes()[a.index as int].value),
{
    let nodes = old.nodes();
    let tape = new.nodes();
    let n = nodes.len() as int;
    let (ai, si) = (a.index as int, s.index as int);
    let wanted = seq![a];
    assert(crate::graph::inputs_before(nodes[si].op, si));
    lemma_two_wanted(a, a);
    let adj = choose|adj: Seq<Option<usize>>|
        {
            &&& #[trigger] is_adjoint_map(tape, nodes, si, adj)
            &&& forall|w: int| 0 <= w < n && occurrences(wanted, w) == 1 ==> #[trigger] new.grads()[w] == adj[w]
        };
    assert(new.grads()[ai] == adj[ai]);
    assert(tape[si] == nodes[si]) by {
        assert(tape.subrange(0, n)[si] == tape[si]);
    }
    lemma_reaches_unfold(nodes, si, si);
    assert forall|j: int| 0 <= j < n && j != si && reaches(nodes, j, si) implies #[trigger] uses(nodes, j, ai).len() == 0 by {
        assert(is_input(nodes[si].op, ai));
        lemma_reaches_an_input(nodes, si, ai, ai, j);
        if uses(nodes, j, ai).len() != 0 {
            assert(is_input(nodes[j].op, ai));
            assert(edge(nodes, ai, j));
            crate::graph::lemma_edge_forward(nodes, ai, j);
            lemma_reaches_before(nodes, j, ai);
        }
    }
    lemma_single_consumer(nodes, si, ai, 0, si);
    assert(uses(nodes, si, ai) =~= seq![(si, 0int)]);
    assert(adj[ai] is Some);
    assert(tape[ai] == nodes[ai]) by {
        assert(tape.subrange(0, n)[ai] == tape[ai]);
    }
    let ga = adj[ai]->0 as int;
    assert(crate::graph::inputs_before(tape[ga].op, ga));
    assert(crate::graph::inputs_before(tape[n].op, n));
    assert(crate::graph::inputs_before(tape[si].op, si));
    assert(tape[si].value.shape() == Seq::<usize>::empty());
}

/// Reading a gradient does not change the tape, so two reads with no pass in
/// between give the same handle.
pub proof fn lemma_gradient_read_is_stable(ops: &Ops, v: Var, first: Option<Var>, second: Option<Var>)
    requires
        first == ops.gradient_of(v),
        second == ops.gradient_of(v),
    ensures
        first == second,
{
}

} // verus!
