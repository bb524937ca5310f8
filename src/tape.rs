//! The tape: an append-only arena of nodes, the forward operations that
//! record on it, and the reverse pass.
use vstd::prelude::*;

use crate::backend::{
    broadcasts, is_integer, value_add, ElemType, value_expand, value_mul, value_of, value_ones_like, value_sum_all,
    Value,
};
use crate::graph::{
    contributions, edge, is_adjoint_map, is_contribution, is_input, is_sum_of, lemma_contributions_from,
    lemma_edge_forward, lemma_occurrences_step, lemma_reaches_before, lemma_reaches_unfold,
    lemma_sum_of_frame, lemma_sum_of_grows, nodes_wf, occurrences, pass_succeeds, slots_typed, prefix_of, reaches, slot_holds,
    slots_within, uses, Label, Node, Op, Var,
};

verus! {

/// A failure of the numeric backend, handed on to the caller.
#[derive(Debug)]
pub enum TapeError {
    Backend(candle_core::Error),
}

/// The recording context: every node of a session in creation order, the
/// gradient slot of each, and the counter that names anonymous nodes.
pub struct Ops {
    nodes: Vec<Node>,
    grads: Vec<Option<usize>>,
    counter: usize,
}

impl Ops {
    /// The nodes recorded so far, in creation order.
    pub closed spec fn nodes(&self) -> Seq<Node> {
        self.nodes@
    }

    /// For each node, the index of the node that holds its gradient after the
    /// last reverse pass that asked for it.
    pub closed spec fn grads(&self) -> Seq<Option<usize>> {
        self.grads@
    }

    /// The number of anonymous nodes created so far.
    pub closed spec fn counter(&self) -> nat {
        self.counter as nat
    }

    /// The graph is well formed and every slot points into the tape.
    pub open spec fn linked(&self) -> bool {
        &&& nodes_wf(self.nodes())
        &&& self.grads().len() == self.nodes().len()
        &&& slots_within(self.grads(), 0, self.nodes().len() as int)
        &&& self.counter() <= self.nodes().len()
    }

    /// Well formed, and every generated label is below the counter, so the
    /// next generated one is new.
    pub open spec fn wf(&self) -> bool {
        &&& self.linked()
        &&& forall|j: int|
            0 <= j < self.nodes().len() ==> (#[trigger] self.nodes()[j].label matches Label::Anonymous(k) ==> k
                < self.counter())
    }

    pub open spec fn valid(&self, v: Var) -> bool {
        v.index < self.nodes().len()
    }

    /// `self` holds every node of `old` unchanged, and the gradient slots of
    /// those nodes too; it may hold more nodes after them.
    pub open spec fn grows_from(&self, old: &Ops) -> bool {
        &&& old.nodes().len() <= self.nodes().len()
        &&& self.nodes().subrange(0, old.nodes().len() as int) == old.nodes()
        &&& self.grads().subrange(0, old.grads().len() as int) == old.grads()
    }

    /// What a completed reverse pass from `l` over the tape `old` leaves:
    /// the nodes of `old` unchanged; the seed, ones shaped like `l`, as the
    /// first new node; and, for each node of `old`, its gradient slot
    /// - unchanged when the node is not in `wanted`,
    /// - when it is there once: filled exactly when the node contributes to
    ///   `l`, with a node that the pass created (the seed itself for `l`),
    /// - emptied when it is there more than once (the first assignment takes
    ///   the gradient out of the working map);
    ///
    /// and the gradients that the slots receive are those of an adjoint map:
    /// each is the sum, in the order of the pass, of what the local rules of
    /// its uses sent back.
    pub open spec fn reverse_pass_done(&self, old: &Ops, l: Var, wanted: Seq<Var>) -> bool {
        let n = old.nodes().len();
        &&& n < self.nodes().len()
        &&& self.nodes().subrange(0, n as int) == old.nodes()
        &&& self.nodes()[n as int].op == Op::Ones(l.index)
        &&& forall|w: int|
            0 <= w < n ==> {
                let c = occurrences(wanted, w);
                &&& c == 0 ==> #[trigger] self.grads()[w] == old.grads()[w]
                &&& c == 1 ==> (self.grads()[w] is Some <==> reaches(old.nodes(), w, l.index as int))
                &&& c == 1 && w == l.index ==> self.grads()[w] == Some(n as usize)
                &&& c >= 1 ==> (self.grads()[w] matches Some(g) ==> n <= g)
                &&& c >= 2 ==> self.grads()[w] is None
            }
        &&& exists|adj: Seq<Option<usize>>|
            {
                &&& #[trigger] is_adjoint_map(self.nodes(), old.nodes(), l.index as int, adj)
                &&& forall|w: int| 0 <= w < n && occurrences(wanted, w) == 1 ==> #[trigger] self.grads()[w] == adj[w]
            }
    }

    /// What the gradient slot of `v` holds, as a handle.
    pub open spec fn gradient_of(&self, v: Var) -> Option<Var> {
        match self.grads()[v.index as int] {
            Some(g) => Some(Var { index: g }),
            None => None,
        }
    }

    /// The tape after an operation that appended one node without a gradient.
    pub open spec fn appended(&self, old: &Ops, op: Op, label: Label) -> bool {
        &&& self.nodes().len() == old.nodes().len() + 1
        &&& self.nodes().drop_last() == old.nodes()
        &&& self.nodes().last().op == op
        &&& self.nodes().last().label == label
        &&& self.grads() == old.grads().push(None)
    }

    /// The tape after an operation that appended one anonymous node.
    pub open spec fn appended_anonymous(&self, old: &Ops, op: Op) -> bool {
        &&& self.appended(old, op, Label::Anonymous(old.counter() as usize))
        &&& self.counter() == old.counter() + 1
    }

    pub fn new() -> (r: Ops)
        ensures
            r.wf(),
            r.nodes().len() == 0,
            r.counter() == 0,
    {
        Ops { nodes: Vec::new(), grads: Vec::new(), counter: 0 }
    }

    fn push_node(&mut self, value: Value, label: Label, op: Op) -> (r: Var)
        requires
            old(self).wf(),
            inputs_before_len(op, old(self).nodes().len()),
            crate::graph::value_fits(old(self).nodes(), op, value),
        ensures
            final(self).linked(),
            label is Named ==> final(self).wf(),
            r.index == old(self).nodes().len(),
            final(self).nodes() == old(self).nodes().push(Node { value, label, op }),
            final(self).nodes().drop_last() == old(self).nodes(),
            final(self).grads() == old(self).grads().push(None),
            final(self).counter() == old(self).counter(),
    {
        let index = self.nodes.len();
        self.nodes.push(Node { value, label, op });
        self.grads.push(None);
        proof {
            let ns = self.nodes@;
            assert forall|j: int| 0 <= j < ns.len() implies crate::graph::inputs_before(
                #[trigger] ns[j].op,
                j,
            ) && crate::graph::value_fits(ns, ns[j].op, ns[j].value) by {
                if j < index {
                    assert(ns[j] == old(self).nodes[j]);
                    lemma_value_fits_grows(old(self).nodes(), ns, ns[j].op, ns[j].value, j);
                } else {
                    lemma_value_fits_grows(old(self).nodes(), ns, op, value, index as int);
                }
            }
            assert forall|t: int| 0 <= t < self.grads@.len() implies (#[trigger] self.grads@[t] matches Some(
                g,
            ) ==> 0 <= g < ns.len()) by {
                if t < index {
                    assert(self.grads@[t] == old(self).grads@[t]);
                }
            }
            assert(ns.drop_last() =~= old(self).nodes());
            assert forall|j: int| 0 <= j < index implies #[trigger] ns[j].label == old(self).nodes()[j].label by {
                assert(ns[j] == old(self).nodes[j]);
            }
        }
        Var { index }
    }

    fn push_anonymous(&mut self, value: Value, op: Op) -> (r: Var)
        requires
            old(self).wf(),
            inputs_before_len(op, old(self).nodes().len()),
            crate::graph::value_fits(old(self).nodes(), op, value),
        ensures
            final(self).wf(),
            r.index == old(self).nodes().len(),
            final(self).nodes() == old(self).nodes().push(
                Node { value, label: Label::Anonymous(old(self).counter() as usize), op },
            ),
            final(self).nodes().drop_last() == old(self).nodes(),
            final(self).grads() == old(self).grads().push(None),
            final(self).counter() == old(self).counter() + 1,
    {
        let label = Label::Anonymous(self.counter);
        let ghost before = *self;
        let r = self.push_node(value, label, op);
        let len = self.nodes.len();
        assert(self.counter < len);
        self.counter = self.counter + 1;
        proof {
            assert forall|j: int| 0 <= j < self.nodes().len() implies (#[trigger] self.nodes()[j].label matches Label::Anonymous(
                k,
            ) ==> k < self.counter()) by {
                if j < before.nodes().len() {
                    assert(self.nodes()[j] == before.nodes()[j]);
                }
            }
        }
        r
    }

    /// A fresh anonymous leaf holding `value`.
    pub fn var(&mut self, value: candle_core::Tensor) -> (r: Var)
        requires
            old(self).wf(),
        ensures
            final(self).wf(),
            r.index == old(self).nodes().len(),
            final(self).appended_anonymous(old(self), Op::Leaf),
            final(self).nodes().last().value.tensor() == value,
    {
        self.push_anonymous(value_of(value), Op::Leaf)
    }

    /// A fresh leaf holding `value`, identified by `name`. Nodes are told
    /// apart by their position on the tape, never by name: two nodes given
    /// the same name keep separate gradients.
    pub fn named_var(&mut self, value: candle_core::Tensor, name: &str) -> (r: Var)
        requires
            old(self).wf(),
        ensures
            final(self).wf(),
            r.index == old(self).nodes().len(),
            final(self).nodes().len() == old(self).nodes().len() + 1,
            final(self).nodes().drop_last() == old(self).nodes(),
            final(self).nodes().last().value.tensor() == value,
            final(self).nodes().last().label matches Label::Named(s) && s@ == name@,
            final(self).nodes().last().op is Leaf,
            final(self).grads() == old(self).grads().push(None),
            final(self).counter() == old(self).counter(),
    {
        let label = Label::Named(name.to_owned());
        let r = self.push_node(value_of(value), label, Op::Leaf);
        r
    }

    /// `a + b`, recorded so that the upstream gradient flows unchanged to
    /// both inputs.
    pub fn add(&mut self, a: Var, b: Var) -> (r: Result<Var, TapeError>)
        requires
            old(self).wf(),
            old(self).valid(a),
            old(self).valid(b),
            !is_integer(old(self).nodes()[a.index as int].value.dtype()),
        ensures
            final(self).wf(),
            old(self).nodes()[a.index as int].value.like(&old(self).nodes()[b.index as int].value)
                && old(self).nodes()[a.index as int].value.supported() ==> r is Ok,
            match r {
                Ok(v) => {
                    &&& v.index == old(self).nodes().len()
                    &&& final(self).appended_anonymous(old(self), Op::Add(a.index, b.index))
                    &&& final(self).nodes().last().value.like(&old(self).nodes()[a.index as int].value)
                },
                Err(_) => *final(self) == *old(self),
            },
    {
        let value = value_add(&self.nodes[a.index].value, &self.nodes[b.index].value);
        match value {
            Ok(t) => Ok(self.push_anonymous(t, Op::Add(a.index, b.index))),
            Err(e) => Err(TapeError::Backend(e)),
        }
    }

    /// `a * b`, recorded so that the reverse pass sends `g * b` to `a` and
    /// `g * a` to `b`.
    pub fn mul(&mut self, a: Var, b: Var) -> (r: Result<Var, TapeError>)
        requires
            old(self).wf(),
            old(self).valid(a),
            old(self).valid(b),
            !is_integer(old(self).nodes()[a.index as int].value.dtype()),
        ensures
            final(self).wf(),
            old(self).nodes()[a.index as int].value.like(&old(self).nodes()[b.index as int].value)
                && old(self).nodes()[a.index as int].value.supported() ==> r is Ok,
            match r {
                Ok(v) => {
                    &&& v.index == old(self).nodes().len()
                    &&& final(self).appended_anonymous(old(self), Op::Mul(a.index, b.index))
                    &&& final(self).nodes().last().value.like(&old(self).nodes()[a.index as int].value)
                },
                Err(_) => *final(self) == *old(self),
            },
    {
        let value = value_mul(&self.nodes[a.index].value, &self.nodes[b.index].value);
        match value {
            Ok(t) => Ok(self.push_anonymous(t, Op::Mul(a.index, b.index))),
            Err(e) => Err(TapeError::Backend(e)),
        }
    }

    /// The sum of all elements of `a`, identified by `name` when one is
    /// given; the reverse pass broadcasts the gradient back to `a`'s shape.
    pub fn sum(&mut self, a: Var, name: Option<&str>) -> (r: Result<Var, TapeError>)
        requires
            old(self).wf(),
            old(self).valid(a),
            !is_integer(old(self).nodes()[a.index as int].value.dtype()),
        ensures
            final(self).wf(),
            old(self).nodes()[a.index as int].value.supported() ==> r is Ok,
            match r {
                Ok(v) => {
                    &&& v.index == old(self).nodes().len()
                    &&& final(self).nodes().last().value.shape() == Seq::<usize>::empty()
                    &&& final(self).nodes().last().value.same_kind(&old(self).nodes()[a.index as int].value)
                    &&& match name {
                        Some(s) => {
                            &&& final(self).nodes().len() == old(self).nodes().len() + 1
                            &&& final(self).nodes().drop_last() == old(self).nodes()
                            &&& final(self).nodes().last().op == Op::Sum(a.index)
                            &&& final(self).nodes().last().label matches Label::Named(t) && t@ == s@
                            &&& final(self).grads() == old(self).grads().push(None)
                            &&& final(self).counter() == old(self).counter()
                        },
                        None => final(self).appended_anonymous(old(self), Op::Sum(a.index)),
                    }
                },
                Err(_) => *final(self) == *old(self),
            },
    {
        let value = value_sum_all(&self.nodes[a.index].value);
        match value {
            Ok(t) => {
                match name {
                    Some(s) => {
                        let v = self.push_node(t, Label::Named(s.to_owned()), Op::Sum(a.index));
                        Ok(v)
                    },
                    None => {
                        let v = self.push_anonymous(t, Op::Sum(a.index));
                        Ok(v)
                    },
                }
            },
            Err(e) => Err(TapeError::Backend(e)),
        }
    }

    /// `a` broadcast to `shape`; the reverse pass sums the gradient back.
    pub fn expand(&mut self, a: Var, shape: &[usize]) -> (r: Result<Var, TapeError>)
        requires
            old(self).wf(),
            old(self).valid(a),
        ensures
            final(self).wf(),
            r is Ok <==> broadcasts(old(self).nodes()[a.index as int].value.shape(), shape@),
            match r {
                Ok(v) => {
                    &&& v.index == old(self).nodes().len()
                    &&& final(self).nodes().last().value.shape() == shape@
                    &&& final(self).nodes().last().value.same_kind(&old(self).nodes()[a.index as int].value)
                    &&& final(self).nodes().len() == old(self).nodes().len() + 1
                    &&& final(self).nodes().drop_last() == old(self).nodes()
                    &&& final(self).nodes().last().op matches Op::Expand(x, s) && x == a.index
                        && s@ == shape@
                    &&& final(self).nodes().last().label == Label::Anonymous(old(self).counter() as usize)
                    &&& final(self).grads() == old(self).grads().push(None)
                    &&& final(self).counter() == old(self).counter() + 1
                },
                Err(_) => *final(self) == *old(self),
            },
    {
        let value = value_expand(&self.nodes[a.index].value, shape);
        match value {
            Ok(t) => {
                let v = self.push_anonymous(t, Op::Expand(a.index, vstd::slice::slice_to_vec(shape)));
                Ok(v)
            },
            Err(e) => Err(TapeError::Backend(e)),
        }
    }

    /// Adds the contribution `c` into the working gradient `dl` of node `x`:
    /// the first contribution is taken as it is, later ones are summed with
    /// `add`, which records the sum on the tape.
    fn accumulate(
        &mut self,
        dl: &mut Vec<Option<usize>>,
        x: usize,
        c: usize,
        lo: Ghost<int>,
        cs: Ghost<Seq<(int, int)>>,
        entry: Ghost<(int, int)>,
        adj: Ghost<Seq<Option<usize>>>,
        want: Ghost<Value>,
        dt: Ghost<ElemType>,
    ) -> (r: Result<(), TapeError>)
        requires
            old(self).wf(),
            !is_integer(dt@),
            slots_typed(old(self).nodes(), old(dl)@, dt@),
            old(self).nodes()[c as int].value.dtype() == dt@,
            x < old(dl)@.len(),
            lo@ <= c < old(self).nodes().len(),
            slots_within(old(dl)@, lo@, old(self).nodes().len() as int),
            (old(dl)@[x as int] is None && cs@.len() == 0) || (old(dl)@[x as int] matches Some(p)
                && is_sum_of(old(self).nodes(), p as int, cs@, adj@)),
            0 <= entry@.0 < adj@.len(),
            adj@[entry@.0] matches Some(g) && is_contribution(old(self).nodes(), c as int, entry@.0, entry@.1, g as int),
        ensures
            final(self).wf(),
            final(self).grows_from(old(self)),
            want@.supported() && old(self).nodes()[c as int].value.like(&want@) && (old(dl)@[x as int] matches Some(p)
                ==> old(self).nodes()[p as int].value.like(&want@)) ==> r is Ok,
            r is Ok ==> slots_typed(final(self).nodes(), final(dl)@, dt@),
            r is Ok ==> {
                &&& final(dl)@.len() == old(dl)@.len()
                &&& final(dl)@[x as int] matches Some(y) && is_sum_of(final(self).nodes(), y as int, cs@.push(entry@), adj@)
                &&& (final(dl)@[x as int] matches Some(y) && (old(self).nodes()[c as int].value.like(&want@)
                    && (old(dl)@[x as int] matches Some(p) ==> old(self).nodes()[p as int].value.like(&want@))
                    ==> final(self).nodes()[y as int].value.like(&want@)))
                &&& forall|t: int|
                    0 <= t < final(dl)@.len() && t != x ==> #[trigger] final(dl)@[t] == old(dl)@[t]
                &&& slots_within(final(dl)@, lo@, final(self).nodes().len() as int)
            },
    {
        match dl[x] {
            Some(prev) => {
                match self.add(Var { index: prev }, Var { index: c }) {
                    Ok(sum) => {
                        proof {
                            lemma_appended_grows(old(self), self);
                            lemma_grows_prefix(old(self), self);
                            lemma_sum_of_grows(old(self).nodes(), self.nodes(), prev as int, cs@, adj@);
                            lemma_contribution_grows(old(self).nodes(), self.nodes(), c as int, entry@.0, entry@.1, adj@[entry@.0]->0 as int);
                            let e = cs@.push(entry@);
                            assert(e.drop_last() =~= cs@);
                            assert(cs@.len() > 0);
                        }
                        dl.set(x, Some(sum.index));
                        proof {
                            assert forall|t: int| 0 <= t < dl@.len() implies (#[trigger] dl@[t] matches Some(p) ==> p
                                < self.nodes().len() && self.nodes()[p as int].value.dtype() == dt@) by {
                                if t != x && dl@[t] is Some {
                                    assert(self.nodes()[dl@[t]->0 as int] == old(self).nodes()[dl@[t]->0 as int]);
                                }
                            }
                        }
                        Ok(())
                    },
                    Err(e) => {
                        proof {
                            lemma_grows_refl(self);
                        }
                        Err(e)
                    },
                }
            },
            None => {
                proof {
                    lemma_grows_refl(self);
                    assert(cs@.push(entry@).len() == 1);
                }
                dl.set(x, Some(c));
                proof {
                    assert forall|t: int| 0 <= t < dl@.len() implies (#[trigger] dl@[t] matches Some(p) ==> p
                        < self.nodes().len() && self.nodes()[p as int].value.dtype() == dt@) by {
                        if t != x {
                            assert(dl@[t] == old(dl)@[t]);
                        }
                    }
                }
                Ok(())
            },
        }
    }

    /// Applies the local gradient rule of node `i`, whose upstream gradient is
    /// node `g`, and accumulates one contribution into `dl` for each input.
    #[verifier::rlimit(100)]
    fn backward_step(
        &mut self,
        dl: &mut Vec<Option<usize>>,
        i: usize,
        g: usize,
        lo: Ghost<int>,
        cs: Ghost<Seq<Seq<(int, int)>>>,
        adj: Ghost<Seq<Option<usize>>>,
        dt: Ghost<ElemType>,
    ) -> (r: Result<(), TapeError>)
        requires
            old(self).wf(),
            !is_integer(dt@),
            slots_typed(old(self).nodes(), old(dl)@, dt@),
            old(self).nodes()[g as int].value.dtype() == dt@,
            i < old(dl)@.len() <= old(self).nodes().len(),
            lo@ <= g < old(self).nodes().len(),
            slots_within(old(dl)@, lo@, old(self).nodes().len() as int),
            cs@.len() == old(dl)@.len(),
            adj@.len() == old(dl)@.len(),
            adj@[i as int] == Some(g),
            forall|t: int|
                0 <= t < old(dl)@.len() && is_input(old(self).nodes()[i as int].op, t) ==> slot_holds(
                    old(self).nodes(),
                    #[trigger] old(dl)@[t],
                    cs@[t],
                    adj@,
                ),
        ensures
            final(self).wf(),
            final(self).grows_from(old(self)),
            r is Ok ==> slots_typed(final(self).nodes(), final(dl)@, dt@),
            step_can_succeed(old(self).nodes(), old(dl)@, i as int, g as int) ==> {
                &&& r is Ok
                &&& forall|t: int|
                    0 <= t < old(dl)@.len() && is_input(old(self).nodes()[i as int].op, t) ==> (
                    #[trigger] final(dl)@[t] matches Some(p) && final(self).nodes()[p as int].value.like(
                        &old(self).nodes()[t].value,
                    ))
            },
            r is Ok ==> {
                &&& final(dl)@.len() == old(dl)@.len()
                &&& forall|t: int|
                    0 <= t < final(dl)@.len() ==> if is_input(old(self).nodes()[i as int].op, t) {
                        (#[trigger] final(dl)@[t]) matches Some(p) && is_sum_of(
                            final(self).nodes(),
                            p as int,
                            cs@[t] + uses(old(self).nodes(), i as int, t),
                            adj@,
                        )
                    } else {
                        final(dl)@[t] == old(dl)@[t]
                    }
                &&& slots_within(final(dl)@, lo@, final(self).nodes().len() as int)
            },
    {
        proof {
            lemma_grows_refl(self);
            assert(crate::graph::inputs_before(self.nodes()[i as int].op, i as int));
        }
        let ghost s0 = *self;
        let ghost dl0 = dl@;
        let ghost op = self.nodes()[i as int].op;
        let ghost ok = step_can_succeed(s0.nodes(), dl0, i as int, g as int);
        match &self.nodes[i].op {
            Op::Leaf => Ok(()),
            Op::Ones(_) => Ok(()),
            Op::Add(a, b) => {
                let a = *a;
                let b = *b;
                let ghost ua = uses(s0.nodes(), i as int, a as int);
                let ghost ub = uses(s0.nodes(), i as int, b as int);
                proof {
                    if ok {
                        assert(is_input(op, a as int) && is_input(op, b as int));
                        assert(dl0[a as int] is Some ==> s0.nodes()[dl0[a as int]->0 as int].value.like(&s0.nodes()[a as int].value));
                        assert(dl0[b as int] is Some ==> s0.nodes()[dl0[b as int]->0 as int].value.like(&s0.nodes()[b as int].value));
                    }
                }
                match self.accumulate(dl, a, g, lo, Ghost(cs@[a as int]), Ghost((i as int, 0int)), adj, Ghost(s0.nodes()[a as int].value), dt) {
                    Ok(()) => {},
                    Err(e) => return Err(e),
                }
                let ghost s1 = *self;
                let ghost dl1 = dl@;
                let ghost csb = if a == b {
                    cs@[a as int].push((i as int, 0int))
                } else {
                    cs@[b as int]
                };
                proof {
                    lemma_grows_prefix(&s0, &s1);
                    if a != b {
                        lemma_slot_grows(s0.nodes(), s1.nodes(), dl0[b as int], csb, adj@);
                    }
                    assert(s1.nodes()[i as int] == s0.nodes()[i as int]);
                    assert(s1.nodes()[g as int] == s0.nodes()[g as int]);
                    if ok && a != b && dl1[b as int] is Some {
                        assert(dl1[b as int] == dl0[b as int]);
                        assert(s1.nodes()[dl0[b as int]->0 as int] == s0.nodes()[dl0[b as int]->0 as int]);
                    }
                }
                let r = self.accumulate(dl, b, g, lo, Ghost(csb), Ghost((i as int, 1int)), adj, Ghost(s0.nodes()[b as int].value), dt);
                proof {
                    lemma_grows_trans(&s0, &s1, self);
                    if ok && a != b {
                        lemma_grows_prefix(&s1, self);
                        assert(self.nodes()[dl1[a as int]->0 as int] == s1.nodes()[dl1[a as int]->0 as int]);
                    }
                    if r is Ok {
                        lemma_grows_prefix(&s1, self);
                        if a != b {
                            lemma_sum_of_grows(s1.nodes(), self.nodes(), dl1[a as int]->0 as int, cs@[a as int].push((i as int, 0int)), adj@);
                            assert(cs@[a as int].push((i as int, 0int)) =~= cs@[a as int] + ua);
                            assert(csb.push((i as int, 1int)) =~= cs@[b as int] + ub);
                        } else {
                            assert(csb.push((i as int, 1int)) =~= cs@[a as int] + ua);
                        }
                    }
                }
                proof {
                    if ok {
                        assert(r is Ok);
                        assert forall|t: int| 0 <= t < dl0.len() && is_input(op, t) implies (
                        #[trigger] dl@[t] matches Some(p) && self.nodes()[p as int].value.like(&s0.nodes()[t].value)) by {}
                    }
                }
                r
            },
            Op::Mul(a, b) => {
                let a = *a;
                let b = *b;
                let ghost ua = uses(s0.nodes(), i as int, a as int);
                let ghost ub = uses(s0.nodes(), i as int, b as int);
                proof {
                    if ok {
                        assert(is_input(op, a as int) && is_input(op, b as int));
                        assert(s0.nodes()[g as int].value.like(&s0.nodes()[b as int].value));
                        assert(dl0[a as int] is Some ==> s0.nodes()[dl0[a as int]->0 as int].value.like(&s0.nodes()[a as int].value));
                        assert(dl0[b as int] is Some ==> s0.nodes()[dl0[b as int]->0 as int].value.like(&s0.nodes()[b as int].value));
                    }
                }
                let ga = match self.mul(Var { index: g }, Var { index: b }) {
                    Ok(v) => v,
                    Err(e) => return Err(e),
                };
                proof {
                    lemma_appended_grows(&s0, self);
                }
                let ghost s1 = *self;
                let gb = match self.mul(Var { index: g }, Var { index: a }) {
                    Ok(v) => v,
                    Err(e) => {
                        proof {
                            lemma_grows_refl(self);
                            lemma_grows_trans(&s0, &s1, self);
                        }
                        return Err(e);
                    },
                };
                proof {
                    lemma_appended_grows(&s1, self);
                    lemma_grows_trans(&s0, &s1, self);
                    lemma_grows_prefix(&s0, self);
                    if ok {
                        assert(self.nodes()[ga.index as int].value.like(&s0.nodes()[a as int].value));
                        assert(self.nodes()[gb.index as int].value.like(&s0.nodes()[b as int].value));
                        if dl0[a as int] is Some {
                            assert(self.nodes()[dl0[a as int]->0 as int] == s0.nodes()[dl0[a as int]->0 as int]);
                        }
                        if dl0[b as int] is Some {
                            assert(self.nodes()[dl0[b as int]->0 as int] == s0.nodes()[dl0[b as int]->0 as int]);
                        }
                    }
                    lemma_slot_grows(s0.nodes(), self.nodes(), dl0[a as int], cs@[a as int], adj@);
                    lemma_slot_grows(s0.nodes(), self.nodes(), dl0[b as int], cs@[b as int], adj@);
                    assert(self.nodes()[i as int] == s0.nodes()[i as int]);
                    assert(self.nodes()[ga.index as int] == s1.nodes()[ga.index as int]);
                }
                let ghost s2 = *self;
                match self.accumulate(dl, a, ga.index, lo, Ghost(cs@[a as int]), Ghost((i as int, 0int)), adj, Ghost(s0.nodes()[a as int].value), dt) {
                    Ok(()) => {},
                    Err(e) => {
                        proof {
                            lemma_grows_trans(&s0, &s2, self);
                        }
                        return Err(e);
                    },
                }
                proof {
                    lemma_grows_trans(&s0, &s2, self);
                }
                let ghost s3 = *self;
                let ghost dl3 = dl@;
                let ghost csb = if a == b {
                    cs@[a as int].push((i as int, 0int))
                } else {
                    cs@[b as int]
                };
                proof {
                    lemma_grows_prefix(&s2, &s3);
                    if a != b {
                        lemma_slot_grows(s2.nodes(), s3.nodes(), dl0[b as int], csb, adj@);
                    }
                    assert(s3.nodes()[i as int] == s0.nodes()[i as int]);
                    assert(s3.nodes()[gb.index as int] == s2.nodes()[gb.index as int]);
                    if ok && a != b && dl3[b as int] is Some {
                        assert(dl3[b as int] == dl0[b as int]);
                        assert(s3.nodes()[dl0[b as int]->0 as int] == s2.nodes()[dl0[b as int]->0 as int]);
                    }
                }
                let r = self.accumulate(dl, b, gb.index, lo, Ghost(csb), Ghost((i as int, 1int)), adj, Ghost(s0.nodes()[b as int].value), dt);
                proof {
                    lemma_grows_trans(&s0, &s3, self);
                    if ok && a != b {
                        lemma_grows_prefix(&s3, self);
                        assert(self.nodes()[dl3[a as int]->0 as int] == s3.nodes()[dl3[a as int]->0 as int]);
                    }
                    if r is Ok {
                        lemma_grows_prefix(&s3, self);
                        if a != b {
                            lemma_sum_of_grows(s3.nodes(), self.nodes(), dl3[a as int]->0 as int, cs@[a as int].push((i as int, 0int)), adj@);
                            assert(cs@[a as int].push((i as int, 0int)) =~= cs@[a as int] + ua);
                            assert(csb.push((i as int, 1int)) =~= cs@[b as int] + ub);
                        } else {
                            assert(csb.push((i as int, 1int)) =~= cs@[a as int] + ua);
                        }
                    }
                }
                proof {
                    if ok {
                        assert(r is Ok);
                        assert forall|t: int| 0 <= t < dl0.len() && is_input(op, t) implies (
                        #[trigger] dl@[t] matches Some(p) && self.nodes()[p as int].value.like(&s0.nodes()[t].value)) by {}
                    }
                }
                r
            },
            Op::Sum(a) => {
                let a = *a;
                let dims = self.nodes[a].value.dims();
                proof {
                    if ok {
                        assert(is_input(op, a as int));
                        assert(s0.nodes()[g as int].value.shape().len() == 0);
                        assert(broadcasts(s0.nodes()[g as int].value.shape(), dims@));
                        assert(dl0[a as int] is Some ==> s0.nodes()[dl0[a as int]->0 as int].value.like(&s0.nodes()[a as int].value));
                    }
                }
                let e = match self.expand(Var { index: g }, dims.as_slice()) {
                    Ok(v) => v,
                    Err(e) => return Err(e),
                };
                proof {
                    lemma_appended_grows(&s0, self);
                    lemma_grows_prefix(&s0, self);
                    lemma_slot_grows(s0.nodes(), self.nodes(), dl0[a as int], cs@[a as int], adj@);
                    assert(self.nodes()[i as int] == s0.nodes()[i as int]);
                    if ok {
                        assert(is_input(op, a as int));
                        assert(self.nodes()[e.index as int].value.like(&s0.nodes()[a as int].value));
                        if dl0[a as int] is Some {
                            assert(s0.nodes()[dl0[a as int]->0 as int].value.like(&s0.nodes()[a as int].value));
                            assert(self.nodes()[dl0[a as int]->0 as int] == s0.nodes()[dl0[a as int]->0 as int]);
                        }
                    }
                }
                let ghost s1 = *self;
                let r = self.accumulate(dl, a, e.index, lo, Ghost(cs@[a as int]), Ghost((i as int, 0int)), adj, Ghost(s0.nodes()[a as int].value), dt);
                proof {
                    lemma_grows_trans(&s0, &s1, self);
                    assert(cs@[a as int].push((i as int, 0int)) =~= cs@[a as int] + uses(s0.nodes(), i as int, a as int));
                }
                proof {
                    if ok {
                        assert(r is Ok);
                        assert forall|t: int| 0 <= t < dl0.len() && is_input(op, t) implies (
                        #[trigger] dl@[t] matches Some(p) && self.nodes()[p as int].value.like(&s0.nodes()[t].value)) by {}
                    }
                }
                r
            },
            Op::Expand(a, _shape) => {
                let a = *a;
                proof {
                    assert(s0.nodes()[i as int].op is Expand);
                }
                let e = match self.sum(Var { index: g }, None) {
                    Ok(v) => v,
                    Err(e) => return Err(e),
                };
                proof {
                    lemma_appended_grows(&s0, self);
                    lemma_grows_prefix(&s0, self);
                    lemma_slot_grows(s0.nodes(), self.nodes(), dl0[a as int], cs@[a as int], adj@);
                    assert(self.nodes()[i as int] == s0.nodes()[i as int]);
                    if ok {
                        assert(is_input(op, a as int));
                        assert(s0.nodes()[i as int].op->Expand_0 == a);
                        assert(s0.nodes()[a as int].value.shape().len() == 0);
                        assert(s0.nodes()[a as int].value.shape() =~= Seq::<usize>::empty());
                        assert(self.nodes()[e.index as int].value.like(&s0.nodes()[a as int].value));
                        if dl0[a as int] is Some {
                            assert(s0.nodes()[dl0[a as int]->0 as int].value.like(&s0.nodes()[a as int].value));
                            assert(self.nodes()[dl0[a as int]->0 as int] == s0.nodes()[dl0[a as int]->0 as int]);
                        }
                    }
                }
                let ghost s1 = *self;
                let r = self.accumulate(dl, a, e.index, lo, Ghost(cs@[a as int]), Ghost((i as int, 0int)), adj, Ghost(s0.nodes()[a as int].value), dt);
                proof {
                    lemma_grows_trans(&s0, &s1, self);
                    assert(cs@[a as int].push((i as int, 0int)) =~= cs@[a as int] + uses(s0.nodes(), i as int, a as int));
                }
                proof {
                    if ok {
                        assert(r is Ok);
                        assert forall|t: int| 0 <= t < dl0.len() && is_input(op, t) implies (
                        #[trigger] dl@[t] matches Some(p) && self.nodes()[p as int].value.like(&s0.nodes()[t].value)) by {}
                    }
                }
                r
            },
        }
    }

    /// The reverse pass: computes the gradient of `l` with respect to every
    /// node recorded so far and leaves it in the slots of the `wanted` nodes.
    ///
    /// The pass walks the tape from the newest node back to the oldest,
    /// skipping nodes that do not contribute to `l`. Gradient nodes are built
    /// with the tape's own operations, so they are recorded too and a later
    /// pass can differentiate them; nodes recorded during this pass are not
    /// visited by it.
    #[verifier::rlimit(60)]
    pub fn grad(&mut self, l: Var, wanted: &[Var]) -> (r: Result<(), TapeError>)
        requires
            old(self).wf(),
            old(self).valid(l),
            !is_integer(old(self).nodes()[l.index as int].value.dtype()),
            forall|t: int| 0 <= t < wanted@.len() ==> old(self).valid(#[trigger] wanted@[t]),
        ensures
            final(self).wf(),
            pass_succeeds(old(self).nodes(), l.index as int) ==> r is Ok,
            match r {
                Ok(()) => final(self).reverse_pass_done(old(self), l, wanted@),
                Err(_) => final(self).grows_from(old(self)),
            },
    {
        let ghost nodes0 = self.nodes();
        let ghost out = l.index as int;
        let n = self.nodes.len();
        let ones = match value_ones_like(&self.nodes[l.index].value) {
            Ok(t) => t,
            Err(e) => {
                proof {
                    lemma_grows_refl(self);
                }
                return Err(TapeError::Backend(e));
            },
        };
        let seed = self.push_anonymous(ones, Op::Ones(l.index));
        proof {
            lemma_appended_grows(old(self), self);
        }
        let ghost s_seed = *self;
        let mut dl: Vec<Option<usize>> = Vec::new();
        while dl.len() < n
            invariant
                dl.len() <= n,
                forall|t: int| 0 <= t < dl@.len() ==> (#[trigger] dl@[t]) is None,
            decreases n - dl.len(),
        {
            dl.push(None);
        }
        dl.set(l.index, Some(seed.index));
        proof {
            lemma_grows_refl(self);
        }
        let mut k: usize = n;
        while k > 0
            invariant
                0 <= k <= n,
                out == l.index,
                0 <= out < n,
                n == nodes0.len(),
                nodes_wf(nodes0),
                s_seed.grows_from(old(self)),
                s_seed.nodes().len() == n + 1,
                s_seed.nodes()[n as int].op == Op::Ones(l.index),
                s_seed.grads().len() == s_seed.nodes().len(),
                old(self).nodes() == nodes0,
                old(self).grads().len() == n,
                self.wf(),
                self.grows_from(&s_seed),
                dl@.len() == n,
                dl@[out] == Some(n),
                slots_within(dl@, n as int, self.nodes().len() as int),
                forall|i: int| k <= i < n ==> ((#[trigger] dl@[i]) is Some <==> reaches(nodes0, i, out)),
                forall|i: int|
                    0 <= i < n && i != out ==> slot_holds(self.nodes(), #[trigger] dl@[i], contributions(nodes0, out, i, k as int), dl@),
                pass_succeeds(nodes0, out) ==> slots_like(self.nodes(), nodes0, dl@),
                !is_integer(nodes0[out].value.dtype()),
                slots_typed(self.nodes(), dl@, nodes0[out].value.dtype()),
                forall|i: int|
                    0 <= i < k ==> ((#[trigger] dl@[i]) is Some <==> (i == out || exists|j: int|
                        k <= j < n && #[trigger] edge(nodes0, i, j) && reaches(nodes0, j, out))),
            decreases k,
        {
            k = k - 1;
            let ghost dl0 = dl@;
            let ghost s0 = *self;
            proof {
                assert(s0.nodes()[k as int] == nodes0[k as int]) by {
                    assert(s0.nodes().subrange(0, s_seed.nodes().len() as int)[k as int]
                        == s0.nodes()[k as int]);
                    assert(s_seed.nodes().subrange(0, n as int)[k as int] == s_seed.nodes()[k as int]);
                }
                lemma_reaches_unfold(nodes0, k as int, out);
                assert(dl0[k as int] is Some <==> reaches(nodes0, k as int, out)) by {
                    if reaches(nodes0, k as int, out) && k != out {
                        let j = choose|j: int| #[trigger] edge(nodes0, k as int, j) && reaches(nodes0, j, out);
                        lemma_edge_forward(nodes0, k as int, j);
                    }
                }
            }
            match dl[k] {
                Some(g) => {
                    let ghost cs = Seq::new(n as nat, |t: int| contributions(nodes0, out, t, k + 1));
                    proof {
                        assert(!is_input(s0.nodes()[k as int].op, out)) by {
                            lemma_reaches_before(nodes0, k as int, out);
                            assert(crate::graph::inputs_before(nodes0[k as int].op, k as int));
                        }
                    }
                    proof {
                        lemma_grows_trans(old(self), &s_seed, &s0);
                        lemma_grows_prefix(old(self), &s0);
                        lemma_step_owed(nodes0, out, k as int, s0.nodes(), dl0, g);
                    }
                    match self.backward_step(&mut dl, k, g, Ghost(n as int), Ghost(cs), Ghost(dl0), Ghost(nodes0[out].value.dtype())) {
                        Ok(()) => {},
                        Err(e) => {
                            proof {
                                lemma_grows_trans(&s_seed, &s0, self);
                                lemma_grows_trans(old(self), &s_seed, self);
                            }
                            return Err(e);
                        },
                    }
                    proof {
                        lemma_grows_trans(&s_seed, &s0, self);
                        lemma_reaches_before(nodes0, k as int, out);
                        assert(crate::graph::inputs_before(nodes0[k as int].op, k as int));
                        assert forall|i: int| 0 <= i < n implies (edge(nodes0, i, k as int) <==> is_input(
                            s0.nodes()[k as int].op,
                            i,
                        )) by {}
                        assert(!is_input(s0.nodes()[k as int].op, out));
                        assert(dl@[out] == dl0[out]);
                        lemma_grows_prefix(&s0, self);
                        lemma_grows_trans(old(self), &s_seed, &s0);
                        lemma_grows_prefix(old(self), &s0);
                        lemma_step_keeps_sums(nodes0, out, k as int, s0.nodes(), self.nodes(), dl0, dl@);
                        lemma_step_keeps_reach(nodes0, out, k as int, dl0, dl@);
                        if pass_succeeds(nodes0, out) {
                            assert(step_can_succeed(s0.nodes(), dl0, k as int, g as int));
                            lemma_step_keeps_like(nodes0, k as int, s0.nodes(), self.nodes(), dl0, dl@);
                        }
                    }
                },
                None => {
                    proof {
                        lemma_grows_refl(self);
                        assert forall|i: int| 0 <= i < n && i != out implies slot_holds(
                            self.nodes(),
                            #[trigger] dl@[i],
                            contributions(nodes0, out, i, k as int),
                            dl@,
                        ) by {
                            assert(contributions(nodes0, out, i, k as int) == contributions(nodes0, out, i, k + 1));
                        }
                        lemma_step_keeps_reach(nodes0, out, k as int, dl0, dl@);
                    }
                },
            }
        }
        let ghost dl_end = dl@;
        let ghost grads_mid = self.grads();
        let ghost nodes_end = self.nodes();
        proof {
            assert(is_adjoint_map(nodes_end, nodes0, out, dl_end));
            lemma_grows_trans(old(self), &s_seed, self);
            assert forall|w: int| 0 <= w < n implies grads_mid[w] == old(self).grads()[w] by {
                assert(self.grads().subrange(0, n as int)[w] == self.grads()[w]);
            }
        }
        let mut t: usize = 0;
        while t < wanted.len()
            invariant
                t <= wanted@.len(),
                n == nodes0.len(),
                0 <= out < n,
                out == l.index,
                self.wf(),
                self.nodes() == nodes_end,
                nodes_end.len() > n,
                self.grads().len() == grads_mid.len(),
                dl@.len() == n,
                dl_end.len() == n,
                slots_within(dl@, n as int, self.nodes().len() as int),
                slots_within(dl_end, n as int, self.nodes().len() as int),
                forall|v: int| 0 <= v < wanted@.len() ==> (#[trigger] wanted@[v]).index < n,
                forall|w: int|
                    0 <= w < n ==> {
                        let c = occurrences(wanted@.subrange(0, t as int), w);
                        &&& c == 0 ==> #[trigger] self.grads()[w] == grads_mid[w] && dl@[w] == dl_end[w]
                        &&& c == 1 ==> self.grads()[w] == dl_end[w] && dl@[w] is None
                        &&& c >= 2 ==> self.grads()[w] is None && dl@[w] is None
                    },
            decreases wanted@.len() - t,
        {
            let w = wanted[t].index;
            let ghost grads_before = self.grads();
            let ghost dl_before = dl@;
            let gw = dl[w];
            dl.set(w, None);
            self.grads.set(w, gw);
            proof {
                assert forall|x: int| 0 <= x < n implies {
                    let c = occurrences(wanted@.subrange(0, t + 1), x);
                    &&& c == 0 ==> #[trigger] self.grads()[x] == grads_mid[x] && dl@[x] == dl_end[x]
                    &&& c == 1 ==> self.grads()[x] == dl_end[x] && dl@[x] is None
                    &&& c >= 2 ==> self.grads()[x] is None && dl@[x] is None
                } by {
                    lemma_occurrences_step(wanted@, t as int, x);
                    let c = occurrences(wanted@.subrange(0, t as int), x);
                    assert(c == 0 ==> grads_before[x] == grads_mid[x] && dl_before[x] == dl_end[x]);
                    assert(c == 1 ==> grads_before[x] == dl_end[x] && dl_before[x] is None);
                    assert(c >= 2 ==> grads_before[x] is None && dl_before[x] is None);
                    if x != w {
                        assert(self.grads()[x] == grads_before[x]);
                        assert(dl@[x] == dl_before[x]);
                    }
                }
            }
            t = t + 1;
        }
        proof {
            assert(wanted@.subrange(0, wanted@.len() as int) =~= wanted@);
            assert(self.nodes().subrange(0, n as int) =~= nodes0) by {
                assert(s_seed.nodes().subrange(0, n as int) == nodes0);
                assert forall|i: int| 0 <= i < n implies self.nodes()[i] == nodes0[i] by {
                    assert(self.nodes().subrange(0, s_seed.nodes().len() as int)[i] == self.nodes()[i]);
                    assert(s_seed.nodes().subrange(0, n as int)[i] == s_seed.nodes()[i]);
                }
            }
            assert(self.nodes()[n as int] == s_seed.nodes()[n as int]) by {
                assert(self.nodes().subrange(0, s_seed.nodes().len() as int)[n as int] == self.nodes()[n as int]);
            }
            assert forall|w: int| 0 <= w < n implies {
                let c = occurrences(wanted@, w);
                &&& c == 0 ==> #[trigger] self.grads()[w] == old(self).grads()[w]
                &&& c == 1 ==> (self.grads()[w] is Some <==> reaches(old(self).nodes(), w, l.index as int))
                &&& c == 1 && w == l.index ==> self.grads()[w] == Some(n as usize)
                &&& c >= 1 ==> (self.grads()[w] matches Some(g) ==> n <= g)
                &&& c >= 2 ==> self.grads()[w] is None
            } by {
                assert(dl_end[w] is Some <==> reaches(nodes0, w, out));
            }
            assert(is_adjoint_map(self.nodes(), old(self).nodes(), l.index as int, dl_end));
        }
        Ok(())
    }

    /// The gradient left in `v` by the last reverse pass that asked for it.
    pub fn gradient(&self, v: Var) -> (r: Option<Var>)
        requires
            self.wf(),
            self.valid(v),
        ensures
            r == self.gradient_of(v),
    {
        match self.grads[v.index] {
            Some(g) => Some(Var { index: g }),
            None => None,
        }
    }

    /// The value held by `v`.
    pub fn value(&self, v: Var) -> (r: &candle_core::Tensor)
        requires
            self.valid(v),
        ensures
            *r == self.nodes()[v.index as int].value.tensor(),
    {
        self.nodes[v.index].value.as_tensor()
    }

    /// The shape of `v`'s value.
    pub fn shape(&self, v: Var) -> (r: Vec<usize>)
        requires
            self.valid(v),
        ensures
            r@ == self.nodes()[v.index as int].value.shape(),
    {
        self.nodes[v.index].value.dims()
    }

    /// The element type of `v`'s value.
    pub fn elem_type(&self, v: Var) -> (r: ElemType)
        requires
            self.valid(v),
        ensures
            r == self.nodes()[v.index as int].value.dtype(),
    {
        self.nodes[v.index].value.elem_type()
    }

    /// Whether `v`'s value lives in main memory.
    pub fn on_cpu(&self, v: Var) -> (r: bool)
        requires
            self.valid(v),
        ensures
            r == self.nodes()[v.index as int].value.on_cpu(),
    {
        self.nodes[v.index].value.is_on_cpu()
    }

    /// The identifier of `v`.
    pub fn label(&self, v: Var) -> (r: &Label)
        requires
            self.valid(v),
        ensures
            *r == self.nodes()[v.index as int].label,
    {
        &self.nodes[v.index].label
    }

    /// How `v` was produced.
    pub fn op(&self, v: Var) -> (r: &Op)
        requires
            self.valid(v),
        ensures
            *r == self.nodes()[v.index as int].op,
    {
        &self.nodes[v.index].op
    }

    /// The number of nodes recorded so far.
    pub fn len(&self) -> (r: usize)
        ensures
            r == self.nodes().len(),
    {
        self.nodes.len()
    }
}

proof fn lemma_grows_prefix(old: &Ops, new: &Ops)
    requires
        new.grows_from(old),
    ensures
        prefix_of(old.nodes(), new.nodes()),
{
    assert forall|i: int| 0 <= i < old.nodes().len() implies #[trigger] new.nodes()[i] == old.nodes()[i] by {
        assert(new.nodes().subrange(0, old.nodes().len() as int)[i] == new.nodes()[i]);
    }
}

proof fn lemma_contribution_grows(tape: Seq<Node>, big: Seq<Node>, x: int, j: int, pos: int, g: int)
    requires
        is_contribution(tape, x, j, pos, g),
        prefix_of(tape, big),
    ensures
        is_contribution(big, x, j, pos, g),
{
    assert(big[x] == tape[x]);
    assert(big[j] == tape[j]);
    if tape[j].op is Sum {
        assert(big[tape[j].op->Sum_0 as int] == tape[tape[j].op->Sum_0 as int]);
    }
}

/// Visiting node `k` keeps the working slots filled exactly for the nodes
/// that reach `out` through a node visited so far.
proof fn lemma_step_keeps_reach(nodes0: Seq<Node>, out: int, k: int, dl0: Seq<Option<usize>>, dl: Seq<Option<usize>>)
    requires
        nodes_wf(nodes0),
        0 <= k < nodes0.len(),
        0 <= out < nodes0.len(),
        dl0.len() == nodes0.len(),
        dl.len() == nodes0.len(),
        dl0[k] is Some <==> reaches(nodes0, k, out),
        forall|i: int| k + 1 <= i < nodes0.len() ==> ((#[trigger] dl0[i]) is Some <==> reaches(nodes0, i, out)),
        forall|i: int|
            0 <= i < k + 1 ==> ((#[trigger] dl0[i]) is Some <==> (i == out || exists|j: int|
                k + 1 <= j < nodes0.len() && #[trigger] edge(nodes0, i, j) && reaches(nodes0, j, out))),
        forall|t: int|
            0 <= t < dl.len() ==> if dl0[k] is Some && is_input(nodes0[k].op, t) {
                (#[trigger] dl[t]) is Some
            } else {
                dl[t] == dl0[t]
            },
    ensures
        forall|i: int| k <= i < nodes0.len() ==> ((#[trigger] dl[i]) is Some <==> reaches(nodes0, i, out)),
        forall|i: int|
            0 <= i < k ==> ((#[trigger] dl[i]) is Some <==> (i == out || exists|j: int|
                k <= j < nodes0.len() && #[trigger] edge(nodes0, i, j) && reaches(nodes0, j, out))),
{
    let n = nodes0.len();
    assert(crate::graph::inputs_before(nodes0[k].op, k));
    assert forall|i: int| k <= i < n implies ((#[trigger] dl[i]) is Some <==> reaches(nodes0, i, out)) by {
        assert(!is_input(nodes0[k].op, i));
    }
    assert forall|i: int| 0 <= i < k implies ((#[trigger] dl[i]) is Some <==> (i == out || exists|j: int|
        k <= j < n && #[trigger] edge(nodes0, i, j) && reaches(nodes0, j, out))) by {
        if dl0[k] is Some && is_input(nodes0[k].op, i) {
            assert(edge(nodes0, i, k));
        } else {
            if exists|j: int| k <= j < n && #[trigger] edge(nodes0, i, j) && reaches(nodes0, j, out) {
                let j = choose|j: int| k <= j < n && #[trigger] edge(nodes0, i, j) && reaches(nodes0, j, out);
                if j == k {
                    assert(edge(nodes0, i, k));
                    assert(is_input(nodes0[k].op, i));
                } else {
                    assert(k + 1 <= j);
                }
            }
        }
    }
}

/// After the rule of node `k`, which reaches `out`, has sent its
/// contributions, every working slot holds the contributions counted from `k`.
proof fn lemma_step_keeps_sums(
    nodes0: Seq<Node>,
    out: int,
    k: int,
    before: Seq<Node>,
    after: Seq<Node>,
    dl0: Seq<Option<usize>>,
    dl: Seq<Option<usize>>,
)
    requires
        nodes_wf(nodes0),
        0 <= k < nodes0.len(),
        0 <= out < nodes0.len(),
        reaches(nodes0, k, out),
        prefix_of(nodes0, before),
        prefix_of(before, after),
        dl0.len() == nodes0.len(),
        dl.len() == nodes0.len(),
        forall|i: int|
            0 <= i < nodes0.len() && i != out ==> slot_holds(
                before,
                #[trigger] dl0[i],
                contributions(nodes0, out, i, k + 1),
                dl0,
            ),
        forall|t: int|
            0 <= t < dl.len() ==> if is_input(before[k].op, t) {
                (#[trigger] dl[t]) matches Some(p) && is_sum_of(
                    after,
                    p as int,
                    Seq::new(nodes0.len(), |t: int| contributions(nodes0, out, t, k + 1))[t] + uses(before, k, t),
                    dl0,
                )
            } else {
                dl[t] == dl0[t]
            },
    ensures
        forall|i: int|
            0 <= i < nodes0.len() && i != out ==> slot_holds(
                after,
                #[trigger] dl[i],
                contributions(nodes0, out, i, k),
                dl,
            ),
{
    assert(before[k] == nodes0[k]);
    assert(crate::graph::inputs_before(nodes0[k].op, k));
    assert forall|i: int| 0 <= i < nodes0.len() && i != out implies slot_holds(
        after,
        #[trigger] dl[i],
        contributions(nodes0, out, i, k),
        dl,
    ) by {
        let c1 = contributions(nodes0, out, i, k + 1);
        let c0 = contributions(nodes0, out, i, k);
        assert(c0 == c1 + uses(nodes0, k, i));
        assert(uses(before, k, i) == uses(nodes0, k, i));
        lemma_contributions_from(nodes0, out, i, k);
        if !is_input(before[k].op, i) {
            assert(uses(nodes0, k, i) =~= Seq::<(int, int)>::empty());
            assert(c0 =~= c1);
            lemma_slot_grows(before, after, dl0[i], c1, dl0);
        }
        if dl[i] is Some {
            assert forall|t: int| 0 <= t < c0.len() implies dl[#[trigger] c0[t].0] == dl0[c0[t].0] by {
                assert(k <= c0[t].0);
                assert(!is_input(before[k].op, c0[t].0));
            }
            lemma_sum_of_frame(after, dl[i]->0 as int, c0, dl0, dl);
        }
    }
}

/// The rule of node `i`, whose gradient is node `g`, is owed success: `g`
/// is shaped like `i`, each input has `i`'s kind and a working gradient
/// shaped like itself, and a broadcast broadcasts a value without dimensions.
pub open spec fn step_can_succeed(tape: Seq<Node>, dl: Seq<Option<usize>>, i: int, g: int) -> bool {
    &&& tape[g].value.like(&tape[i].value)
    &&& tape[i].value.supported()
    &&& forall|t: int|
        0 <= t < dl.len() && is_input(tape[i].op, t) ==> {
            &&& tape[t].value.same_kind(&tape[i].value)
            &&& (#[trigger] dl[t] matches Some(p) ==> tape[p as int].value.like(&tape[t].value))
        }
    &&& (tape[i].op matches Op::Expand(a, _) ==> tape[a as int].value.shape().len() == 0)
}

/// Every working gradient is shaped like the node it belongs to.
pub open spec fn slots_like(tape: Seq<Node>, nodes0: Seq<Node>, dl: Seq<Option<usize>>) -> bool {
    forall|i: int|
        0 <= i < dl.len() && i < nodes0.len() ==> (#[trigger] dl[i] matches Some(p) ==> p < tape.len()
            && tape[p as int].value.like(&nodes0[i].value))
}

proof fn lemma_step_owed(nodes0: Seq<Node>, out: int, k: int, tape: Seq<Node>, dl0: Seq<Option<usize>>, g: usize)
    requires
        nodes_wf(nodes0),
        0 <= k < nodes0.len(),
        0 <= out < nodes0.len(),
        reaches(nodes0, k, out),
        prefix_of(nodes0, tape),
        dl0.len() == nodes0.len(),
        dl0[k] == Some(g),
        pass_succeeds(nodes0, out) ==> slots_like(tape, nodes0, dl0),
    ensures
        pass_succeeds(nodes0, out) ==> step_can_succeed(tape, dl0, k, g as int),
{
    if pass_succeeds(nodes0, out) {
        lemma_step_owed_here(nodes0, out, k, tape, dl0, g);
    }
}

proof fn lemma_step_owed_here(nodes0: Seq<Node>, out: int, k: int, tape: Seq<Node>, dl0: Seq<Option<usize>>, g: usize)
    requires
        nodes_wf(nodes0),
        0 <= k < nodes0.len(),
        0 <= out < nodes0.len(),
        pass_succeeds(nodes0, out),
        reaches(nodes0, k, out),
        prefix_of(nodes0, tape),
        dl0.len() == nodes0.len(),
        dl0[k] == Some(g),
        slots_like(tape, nodes0, dl0),
    ensures
        step_can_succeed(tape, dl0, k, g as int),
{
    assert(tape[k] == nodes0[k]);
    assert(dl0[k] matches Some(p) ==> p < tape.len() && tape[p as int].value.like(&nodes0[k].value));
    assert(crate::graph::inputs_before(nodes0[k].op, k));
    assert(dl0[k] is Some);
    assert forall|t: int| 0 <= t < dl0.len() && is_input(tape[k].op, t) implies {
        &&& tape[t].value.same_kind(&tape[k].value)
        &&& (#[trigger] dl0[t] matches Some(p) ==> tape[p as int].value.like(&tape[t].value))
    } by {
        assert(tape[t] == nodes0[t]);
        assert(edge(nodes0, t, k));
        lemma_reaches_unfold(nodes0, t, out);
        assert(reaches(nodes0, t, out));
    }
    if tape[k].op is Expand {
        assert(reaches(nodes0, k, out));
        let a = tape[k].op->Expand_0 as int;
        assert(tape[a] == nodes0[a]);
        assert(tape[a].value.shape().len() == 0);
    }
    assert(tape[g as int].value.like(&tape[k].value));
}

proof fn lemma_step_keeps_like(
    nodes0: Seq<Node>,
    k: int,
    before: Seq<Node>,
    after: Seq<Node>,
    dl0: Seq<Option<usize>>,
    dl: Seq<Option<usize>>,
)
    requires
        0 <= k < nodes0.len(),
        prefix_of(nodes0, before),
        prefix_of(before, after),
        dl0.len() == nodes0.len(),
        dl.len() == nodes0.len(),
        slots_like(before, nodes0, dl0),
        forall|t: int|
            0 <= t < dl0.len() && is_input(before[k].op, t) ==> (#[trigger] dl[t] matches Some(p)
                && after[p as int].value.like(&before[t].value)),
        forall|t: int|
            0 <= t < dl.len() ==> if is_input(before[k].op, t) {
                (#[trigger] dl[t]) is Some
            } else {
                dl[t] == dl0[t]
            },
        forall|t: int| 0 <= t < dl.len() ==> (#[trigger] dl[t] matches Some(p) ==> p < after.len()),
    ensures
        slots_like(after, nodes0, dl),
{
    assert forall|i: int| 0 <= i < dl.len() && i < nodes0.len() implies (#[trigger] dl[i] matches Some(p) ==> p
        < after.len() && after[p as int].value.like(&nodes0[i].value)) by {
        assert(before[i] == nodes0[i]);
        if !is_input(before[k].op, i) && dl[i] is Some {
            assert(dl[i] == dl0[i]);
            assert(after[dl[i]->0 as int] == before[dl[i]->0 as int]);
        }
    }
}

proof fn lemma_value_fits_grows(small: Seq<Node>, big: Seq<Node>, op: Op, v: Value, j: int)
    requires
        prefix_of(small, big),
        crate::graph::inputs_before(op, j),
        j <= small.len(),
    ensures
        crate::graph::value_fits(small, op, v) == crate::graph::value_fits(big, op, v),
{
    match op {
        Op::Ones(a) => {
            assert(big[a as int] == small[a as int]);
        },
        Op::Add(a, b) => {
            assert(big[a as int] == small[a as int]);
            assert(big[b as int] == small[b as int]);
        },
        Op::Mul(a, b) => {
            assert(big[a as int] == small[a as int]);
            assert(big[b as int] == small[b as int]);
        },
        Op::Sum(a) => {
            assert(big[a as int] == small[a as int]);
        },
        Op::Expand(a, _) => {
            assert(big[a as int] == small[a as int]);
        },
        Op::Leaf => {},
    }
}

proof fn lemma_slot_grows(tape: Seq<Node>, big: Seq<Node>, slot: Option<usize>, cs: Seq<(int, int)>, adj: Seq<Option<usize>>)
    requires
        slot_holds(tape, slot, cs, adj),
        prefix_of(tape, big),
    ensures
        slot_holds(big, slot, cs, adj),
{
    if slot is Some {
        lemma_sum_of_grows(tape, big, slot->0 as int, cs, adj);
    }
}

proof fn lemma_grows_refl(o: &Ops)
    ensures
        o.grows_from(o),
{
    assert(o.nodes().subrange(0, o.nodes().len() as int) =~= o.nodes());
    assert(o.grads().subrange(0, o.grads().len() as int) =~= o.grads());
}

proof fn lemma_grows_trans(a: &Ops, b: &Ops, c: &Ops)
    requires
        b.grows_from(a),
        c.grows_from(b),
        a.grads().len() == a.nodes().len(),
        b.grads().len() == b.nodes().len(),
        c.grads().len() == c.nodes().len(),
    ensures
        c.grows_from(a),
{
    let n = a.nodes().len() as int;
    let m = b.nodes().len() as int;
    assert(c.nodes().subrange(0, n) =~= c.nodes().subrange(0, m).subrange(0, n));
    assert(c.grads().subrange(0, n) =~= c.grads().subrange(0, m).subrange(0, n));
}

proof fn lemma_appended_grows(old: &Ops, new: &Ops)
    requires
        new.nodes().len() == old.nodes().len() + 1,
        new.nodes().drop_last() == old.nodes(),
        new.grads() == old.grads().push(None),
    ensures
        new.grows_from(old),
{
    assert(new.nodes().subrange(0, old.nodes().len() as int) =~= new.nodes().drop_last());
    assert(new.grads().subrange(0, old.grads().len() as int) =~= old.grads());
}

/// Every input of `op` is a node of a tape of `len` nodes.
pub open spec fn inputs_before_len(op: Op, len: nat) -> bool {
    crate::graph::inputs_before(op, len as int)
}

} // verus!
