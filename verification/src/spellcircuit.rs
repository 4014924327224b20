use vstd::prelude::*;
use vstd::pervasive::VecAdditionalExecFns;
use crate::effect::{Effect, Effects};
use crate::global_effect::{GlobalEffect, SelectRubble};
use crate::spell::{
    cast_effects, cast_globals, cast_outputs, cast_pre, with_output, Spell, SpellKind, SpellState,
    StateView, Value,
};

verus! {

broadcast use vstd::std_specs::hash::group_hash_axioms;

/// Address of one output slot of one node: the circuit's edge
/// representation.  Purely a reference, owned by nobody.
#[derive(Clone, Copy, Debug, PartialEq, Eq, Structural)]
pub struct Output {
    pub node: usize,
    pub index: usize,
}

impl Output {
    pub fn new(node: usize, index: usize) -> (o: Output)
        ensures
            o.node == node,
            o.index == index,
    {
        Output { node, index }
    }
}

/// One instantiated vertex of a compiled circuit: its input pointers, its
/// spell, and a memoization cell that is filled exactly once.
pub struct CircuitNode {
    pub inputs: Vec<Output>,
    pub outputs: Option<Vec<Value>>,
    pub spell: Spell,
}

impl CircuitNode {
    pub fn new(inputs: Vec<Output>, spell: Spell) -> (n: CircuitNode)
        ensures
            n.inputs@ == inputs@,
            n.outputs is None,
            n.spell == spell,
    {
        CircuitNode { inputs, outputs: None, spell }
    }

    /// A node is computed exactly when its memoization cell is filled.
    pub fn is_computed(&self) -> (b: bool)
        ensures
            b == (self.outputs is Some),
    {
        self.outputs.is_some()
    }
}

/// Every input pointer stays inside the node list and addresses an output
/// slot its source node declares.
pub open spec fn inputs_wf(nodes: Seq<CircuitNode>) -> bool {
    forall|n: int, j: int|
        0 <= n < nodes.len() && 0 <= j < nodes[n].inputs@.len() ==> {
            let o = #[trigger] nodes[n].inputs@[j];
            &&& o.node < nodes.len()
            &&& o.index < nodes[o.node as int].spell.num_outputs
        }
}

/// Every node's spell is well formed, its input count matches its spell's
/// declared arity, and a computed node holds at least as many output values
/// as its spell declares.
pub open spec fn arities_wf(nodes: Seq<CircuitNode>) -> bool {
    forall|n: int|
        0 <= n < nodes.len() ==> {
            let nd = #[trigger] nodes[n];
            &&& nd.spell.wf()
            &&& nd.inputs@.len() == nd.spell.num_inputs
            &&& (nd.outputs matches Some(os) ==> os@.len() >= nd.spell.num_outputs)
        }
}

/// An output pointer addresses a declared output slot of an existing node.
pub open spec fn output_ok(nodes: Seq<CircuitNode>, o: Output) -> bool {
    &&& o.node < nodes.len()
    &&& o.index < nodes[o.node as int].spell.num_outputs
}

/// `rank` witnesses that the wiring is acyclic: following an edge upstream
/// strictly lowers the rank.
pub open spec fn rank_ok(nodes: Seq<CircuitNode>, rank: Seq<nat>) -> bool {
    &&& rank.len() == nodes.len()
    &&& forall|n: int, j: int|
        0 <= n < nodes.len() && 0 <= j < nodes[n].inputs@.len()
            ==> rank[(#[trigger] nodes[n].inputs@[j]).node as int] < rank[n]
}

/// The wiring admits a rank witness, so the graph has no cycle.  A finite
/// acyclic graph always admits ranks below its node count, so the bound
/// loses no generality.
pub open spec fn acyclic(nodes: Seq<CircuitNode>) -> bool {
    exists|rank: Seq<nat>|
        rank_ok(nodes, rank) && (forall|i: int| 0 <= i < nodes.len() ==> rank[i] < nodes.len())
}

/// The compiled, executable circuit: an ordered node list plus the pointer
/// naming its externally observable result.
pub struct SpellCircuit {
    pub nodes: Vec<CircuitNode>,
    pub output: Output,
    pub rank: Ghost<Seq<nat>>,
}

impl SpellCircuit {
    pub open spec fn wf(self) -> bool {
        &&& inputs_wf(self.nodes@)
        &&& arities_wf(self.nodes@)
        &&& output_ok(self.nodes@, self.output)
        &&& rank_ok(self.nodes@, self.rank@)
    }

    /// The circuit is complete once its designated output node is computed.
    pub open spec fn complete(self) -> bool {
        self.nodes@[self.output.node as int].outputs is Some
    }

    pub fn new(nodes: Vec<CircuitNode>, output: Output) -> (c: SpellCircuit)
        requires
            inputs_wf(nodes@),
            arities_wf(nodes@),
            output_ok(nodes@, output),
            acyclic(nodes@),
        ensures
            c.wf(),
            c.nodes@ == nodes@,
            c.output == output,
    {
        let ghost rank = choose|rank: Seq<nat>|
            rank_ok(nodes@, rank) && (forall|i: int| 0 <= i < nodes@.len() ==> rank[i] < nodes@.len());
        SpellCircuit { nodes, output, rank: Ghost(rank) }
    }

    pub fn is_complete(&self) -> (b: bool)
        requires
            self.output.node < self.nodes@.len(),
        ensures
            b == self.complete(),
    {
        self.nodes[self.output.node].is_computed()
    }
}

/// An element-for-element copy, spelled out so that its view is known.
pub(crate) fn copy_vec<T: Copy>(v: &Vec<T>) -> (r: Vec<T>)
    ensures
        r@ == v@,
{
    let mut r: Vec<T> = Vec::new();
    let mut i: usize = 0;
    while i < v.len()
        invariant
            i <= v@.len(),
            r@.len() == i,
            forall|k: int| 0 <= k < i ==> r@[k] == v@[k],
        decreases v@.len() - i,
    {
        r.push(v[i]);
        i = i + 1;
    }
    proof {
        assert(r@ =~= v@);
    }
    r
}

/// The pointer under which the next node fires when evaluation is asked for
/// the subtree rooted at `o`: `None` if `o`'s node is already computed,
/// otherwise the first firing pointer found in its input subtrees in input
/// order, and `o` itself once every input subtree is quiet.
pub open spec fn next_fire(nodes: Seq<CircuitNode>, rank: Seq<nat>, o: Output) -> Option<Output>
    decreases rank[o.node as int], nodes[o.node as int].inputs@.len() + 1,
        when o.node < nodes.len() && rank_ok(nodes, rank)
{
    if nodes[o.node as int].outputs is Some {
        None
    } else {
        match next_fire_inputs(nodes, rank, o.node as int, 0) {
            Some(p) => Some(p),
            None => Some(o),
        }
    }
}

/// The first firing pointer found in the input subtrees of node `n`, looking
/// at input slots `j` and onward in order.
pub open spec fn next_fire_inputs(nodes: Seq<CircuitNode>, rank: Seq<nat>, n: int, j: int) -> Option<
    Output,
>
    decreases rank[n], nodes[n].inputs@.len() - j,
        when 0 <= n < nodes.len() && 0 <= j && rank_ok(nodes, rank)
{
    if j >= nodes[n].inputs@.len() {
        None
    } else {
        match next_fire(nodes, rank, nodes[n].inputs@[j]) {
            Some(p) => Some(p),
            None => next_fire_inputs(nodes, rank, n, j + 1),
        }
    }
}

/// The input values node `n` consumes, each read from the memoized outputs
/// of the node its input pointer addresses.
pub open spec fn gather(nodes: Seq<CircuitNode>, n: int) -> Seq<Value> {
    Seq::new(
        nodes[n].inputs@.len(),
        |j: int|
            {
                let o = nodes[n].inputs@[j];
                nodes[o.node as int].outputs->Some_0@[o.index as int]
            },
    )
}

/// A firing pointer names an uncomputed node all of whose inputs are
/// computed; a quiet subtree has a computed root.
proof fn lemma_next_fire_ready(nodes: Seq<CircuitNode>, rank: Seq<nat>, o: Output)
    requires
        rank_ok(nodes, rank),
        inputs_wf(nodes),
        o.node < nodes.len(),
    ensures
        match next_fire(nodes, rank, o) {
            None => nodes[o.node as int].outputs is Some,
            Some(p) => {
                &&& p.node < nodes.len()
                &&& nodes[p.node as int].outputs is None
                &&& forall|j: int|
                    0 <= j < nodes[p.node as int].inputs@.len()
                        ==> nodes[(#[trigger] nodes[p.node as int].inputs@[j]).node as int].outputs
                        is Some
            },
        },
    decreases rank[o.node as int], nodes[o.node as int].inputs@.len() + 1,
{
    if nodes[o.node as int].outputs is Some {
    } else {
        lemma_next_fire_inputs_ready(nodes, rank, o.node as int, 0);
    }
}

proof fn lemma_next_fire_inputs_ready(nodes: Seq<CircuitNode>, rank: Seq<nat>, n: int, j: int)
    requires
        rank_ok(nodes, rank),
        inputs_wf(nodes),
        0 <= n < nodes.len(),
        0 <= j,
    ensures
        match next_fire_inputs(nodes, rank, n, j) {
            None => forall|jj: int|
                j <= jj < nodes[n].inputs@.len()
                    ==> nodes[(#[trigger] nodes[n].inputs@[jj]).node as int].outputs is Some,
            Some(p) => {
                &&& p.node < nodes.len()
                &&& nodes[p.node as int].outputs is None
                &&& forall|jj: int|
                    0 <= jj < nodes[p.node as int].inputs@.len()
                        ==> nodes[(#[trigger] nodes[p.node as int].inputs@[jj]).node as int].outputs
                        is Some
            },
        },
    decreases rank[n], nodes[n].inputs@.len() - j,
{
    if j >= nodes[n].inputs@.len() {
    } else {
        lemma_next_fire_ready(nodes, rank, nodes[n].inputs@[j]);
        match next_fire(nodes, rank, nodes[n].inputs@[j]) {
            Some(_) => {},
            None => {
                lemma_next_fire_inputs_ready(nodes, rank, n, j + 1);
            },
        }
    }
}

/// Skipping input subtrees that are known to be quiet does not change which
/// pointer fires next.
proof fn lemma_next_fire_inputs_prefix(nodes: Seq<CircuitNode>, rank: Seq<nat>, n: int, j: int)
    requires
        rank_ok(nodes, rank),
        inputs_wf(nodes),
        0 <= n < nodes.len(),
        0 <= j <= nodes[n].inputs@.len(),
        forall|jj: int|
            0 <= jj < j ==> next_fire(nodes, rank, #[trigger] nodes[n].inputs@[jj]) is None,
    ensures
        next_fire_inputs(nodes, rank, n, 0) == next_fire_inputs(nodes, rank, n, j),
    decreases j,
{
    if j > 0 {
        assert(next_fire(nodes, rank, nodes[n].inputs@[j - 1]) is None);
        assert(next_fire_inputs(nodes, rank, n, j - 1) == next_fire_inputs(nodes, rank, n, j));
        lemma_next_fire_inputs_prefix(nodes, rank, n, j - 1);
    }
}

/// The view of a step's returned effects: the per-target effects and the
/// global effects, or nothing when no node fired.
pub open spec fn result_view(r: Option<(Vec<(u64, Effect)>, Vec<GlobalEffect>)>) -> Option<
    (Seq<(u64, Effect)>, Seq<GlobalEffect>),
> {
    match r {
        None => None,
        Some(rr) => Some((rr.0@, rr.1@)),
    }
}

/// What one evaluation attempt on the subtree rooted at `from` does to the
/// node list: nothing when the subtree is quiet; otherwise exactly the node
/// named by `next_fire` is computed, memoizing its spell's outputs, and the
/// spell's effects are returned.
pub open spec fn subtree_post(
    pre: Seq<CircuitNode>,
    post: Seq<CircuitNode>,
    rank: Seq<nat>,
    s: StateView,
    from: Output,
    r: Option<(Seq<(u64, Effect)>, Seq<GlobalEffect>)>,
) -> bool {
    match next_fire(pre, rank, from) {
        None => post == pre && r is None,
        Some(p) => {
            let n = p.node as int;
            let st = with_output(s, p);
            let ins = gather(pre, n);
            let k = pre[n].spell.kind;
            &&& post.len() == pre.len()
            &&& forall|m: int| 0 <= m < pre.len() && m != n ==> post[m] == pre[m]
            &&& post[n].inputs@ == pre[n].inputs@
            &&& post[n].spell == pre[n].spell
            &&& post[n].outputs matches Some(os) && os@ == cast_outputs(k, st, ins)
            &&& r matches Some(rr) && rr.0 == cast_effects(k, st, ins) && rr.1 == cast_globals(
                k,
                st,
                ins,
            )
        },
    }
}

/// What one call of `execute_next_spell` does to the whole circuit.
pub open spec fn step_post(
    pre: SpellCircuit,
    post: SpellCircuit,
    s: StateView,
    r: Option<(Seq<(u64, Effect)>, Seq<GlobalEffect>)>,
) -> bool {
    &&& post.output == pre.output
    &&& post.rank@ == pre.rank@
    &&& subtree_post(pre.nodes@, post.nodes@, pre.rank@, s, pre.output, r)
}

/// The spell about to fire, if any, can fire: its declared precondition
/// holds of the values it will consume.
pub open spec fn fire_pre(c: SpellCircuit, s: StateView) -> bool {
    match next_fire(c.nodes@, c.rank@, c.output) {
        None => true,
        Some(p) => cast_pre(
            c.nodes@[p.node as int].spell.kind,
            with_output(s, p),
            gather(c.nodes@, p.node as int),
        ),
    }
}

impl SpellCircuit {
    /// The pointer under which the next evaluation attempt would fire a
    /// node, reading from the designated circuit output; `None` once the
    /// output node is computed.
    pub fn next_to_fire(&self) -> (r: Option<Output>)
        requires
            self.wf(),
        ensures
            r == next_fire(self.nodes@, self.rank@, self.output),
    {
        self.next_fire_from(self.output)
    }

    fn next_fire_from(&self, from: Output) -> (r: Option<Output>)
        requires
            self.wf(),
            from.node < self.nodes@.len(),
        ensures
            r == next_fire(self.nodes@, self.rank@, from),
        decreases self.rank@[from.node as int],
    {
        if self.nodes[from.node].outputs.is_some() {
            None
        } else {
            let num_inputs = self.nodes[from.node].inputs.len();
            let mut j: usize = 0;
            while j < num_inputs
                invariant
                    self.wf(),
                    from.node < self.nodes@.len(),
                    self.nodes@[from.node as int].outputs is None,
                    num_inputs == self.nodes@[from.node as int].inputs@.len(),
                    j <= num_inputs,
                    forall|jj: int|
                        0 <= jj < j
                            ==> next_fire(
                            self.nodes@,
                            self.rank@,
                            #[trigger] self.nodes@[from.node as int].inputs@[jj],
                        ) is None,
                decreases num_inputs - j,
            {
                let o = self.nodes[from.node].inputs[j];
                let r = self.next_fire_from(o);
                if r.is_some() {
                    proof {
                        lemma_next_fire_inputs_prefix(
                            self.nodes@,
                            self.rank@,
                            from.node as int,
                            j as int,
                        );
                    }
                    return r;
                }
                j = j + 1;
            }
            proof {
                lemma_next_fire_inputs_prefix(
                    self.nodes@,
                    self.rank@,
                    from.node as int,
                    num_inputs as int,
                );
            }
            Some(from)
        }
    }
}

impl SpellCircuit {
    /// Attempt one synchronization step: fire the first unevaluated,
    /// input-satisfied node found depth-first, left to right, under the
    /// designated output pointer, memoize its outputs, and hand back its
    /// per-target and global effects.  Returns `None` when no node fired,
    /// in particular once the output node is computed.
    pub fn execute_next_spell(&mut self, s: &SpellState) -> (r: Option<
        (Vec<(u64, Effect)>, Vec<GlobalEffect>),
    >)
        requires
            old(self).wf(),
            fire_pre(*old(self), s@),
        ensures
            final(self).wf(),
            step_post(*old(self), *final(self), s@, result_view(r)),
            r is None ==> *final(self) == *old(self),
    {
        let from = self.output;
        self.execute_next_spell_rec(s, from)
    }

    #[verifier::loop_isolation(false)]
    fn execute_next_spell_rec(&mut self, s: &SpellState, from: Output) -> (r: Option<
        (Vec<(u64, Effect)>, Vec<GlobalEffect>),
    >)
        requires
            old(self).wf(),
            from.node < old(self).nodes@.len(),
            next_fire(old(self).nodes@, old(self).rank@, from) matches Some(p) ==> cast_pre(
                old(self).nodes@[p.node as int].spell.kind,
                with_output(s@, p),
                gather(old(self).nodes@, p.node as int),
            ),
        ensures
            final(self).wf(),
            final(self).output == old(self).output,
            final(self).rank@ == old(self).rank@,
            subtree_post(
                old(self).nodes@,
                final(self).nodes@,
                old(self).rank@,
                s@,
                from,
                result_view(r),
            ),
            r is None ==> *final(self) == *old(self),
        decreases old(self).rank@[from.node as int],
    {
        if self.nodes[from.node].outputs.is_some() {
            return None;
        }
        let ghost pre = *self;
        let num_inputs = self.nodes[from.node].inputs.len();
        let mut j: usize = 0;
        while j < num_inputs
            invariant
                *self == pre,
                pre.wf(),
                from.node < pre.nodes@.len(),
                pre.nodes@[from.node as int].outputs is None,
                num_inputs == pre.nodes@[from.node as int].inputs@.len(),
                j <= num_inputs,
                forall|jj: int|
                    0 <= jj < j ==> next_fire(
                        pre.nodes@,
                        pre.rank@,
                        #[trigger] pre.nodes@[from.node as int].inputs@[jj],
                    ) is None,
                next_fire(pre.nodes@, pre.rank@, from) matches Some(p) ==> cast_pre(
                    pre.nodes@[p.node as int].spell.kind,
                    with_output(s@, p),
                    gather(pre.nodes@, p.node as int),
                ),
            decreases num_inputs - j,
        {
            let o = self.nodes[from.node].inputs[j];
            proof {
                assert(o == pre.nodes@[from.node as int].inputs@[j as int]);
                assert(pre.rank@[o.node as int] < pre.rank@[from.node as int]);
                lemma_next_fire_inputs_prefix(pre.nodes@, pre.rank@, from.node as int, j as int);
                assert(next_fire(pre.nodes@, pre.rank@, o) matches Some(q) ==> next_fire(
                    pre.nodes@,
                    pre.rank@,
                    from,
                ) == Some(q));
            }
            let r = self.execute_next_spell_rec(s, o);
            if r.is_some() {
                return r;
            }
            j = j + 1;
        }
        proof {
            lemma_next_fire_inputs_prefix(pre.nodes@, pre.rank@, from.node as int, num_inputs as int);
            assert(next_fire_inputs(pre.nodes@, pre.rank@, from.node as int, 0) is None);
            assert(next_fire(pre.nodes@, pre.rank@, from) == Some(from));
            lemma_next_fire_ready(pre.nodes@, pre.rank@, from);
        }
        let mut vals: Vec<Value> = Vec::new();
        let mut k: usize = 0;
        while k < num_inputs
            invariant
                *self == pre,
                pre.wf(),
                from.node < pre.nodes@.len(),
                pre.nodes@[from.node as int].outputs is None,
                num_inputs == pre.nodes@[from.node as int].inputs@.len(),
                k <= num_inputs,
                vals@.len() == k,
                forall|i: int| 0 <= i < k ==> vals@[i] == gather(pre.nodes@, from.node as int)[i],
                forall|jx: int|
                    0 <= jx < pre.nodes@[from.node as int].inputs@.len() ==> pre.nodes@[(
                    #[trigger] pre.nodes@[from.node as int].inputs@[jx]).node as int].outputs
                        is Some,
            decreases num_inputs - k,
        {
            let o = self.nodes[from.node].inputs[k];
            proof {
                assert(pre.nodes@[from.node as int].inputs@[k as int] == o);
                assert(pre.nodes@[o.node as int].outputs is Some);
                assert(o.index < pre.nodes@[o.node as int].spell.num_outputs);
            }
            let val = match &self.nodes[o.node].outputs {
                Some(os) => os[o.index],
                None => vstd::pervasive::unreached(),
            };
            vals.push(val);
            k = k + 1;
        }
        proof {
            assert(vals@ =~= gather(pre.nodes@, from.node as int));
        }
        let st = s.readdress(from);
        let spell = self.nodes[from.node].spell;
        let res = spell.cast(&st, &vals);
        let new_inputs = copy_vec(&self.nodes[from.node].inputs);
        let node = CircuitNode { inputs: new_inputs, outputs: Some(res.0), spell };
        self.nodes.set(from.node, node);
        proof {
            let f = from.node as int;
            let post = self.nodes@;
            assert(post == pre.nodes@.update(f, node));
            assert(post[f].inputs@ == pre.nodes@[f].inputs@);
            assert forall|n: int, jx: int|
                0 <= n < post.len() && 0 <= jx < post[n].inputs@.len() implies {
                let o = #[trigger] post[n].inputs@[jx];
                &&& o.node < post.len()
                &&& o.index < post[o.node as int].spell.num_outputs
            } by {
                assert(post[n].inputs@ == pre.nodes@[n].inputs@);
                let o = post[n].inputs@[jx];
                assert(o == pre.nodes@[n].inputs@[jx]);
                assert(post[o.node as int].spell == pre.nodes@[o.node as int].spell);
            }
            assert(inputs_wf(post));
            assert forall|n: int| 0 <= n < post.len() implies {
                let nd = #[trigger] post[n];
                &&& nd.spell.wf()
                &&& nd.inputs@.len() == nd.spell.num_inputs
                &&& (nd.outputs matches Some(os) ==> os@.len() >= nd.spell.num_outputs)
            } by {
                if n == f {
                    assert(post[n].spell == pre.nodes@[n].spell);
                    assert(post[n].outputs->Some_0@.len() >= post[n].spell.num_outputs);
                } else {
                    assert(post[n] == pre.nodes@[n]);
                }
            }
            assert(arities_wf(post));
            assert forall|n: int, jx: int|
                0 <= n < post.len() && 0 <= jx < post[n].inputs@.len() implies pre.rank@[(
                #[trigger] post[n].inputs@[jx]).node as int] < pre.rank@[n] by {
                assert(post[n].inputs@ == pre.nodes@[n].inputs@);
                assert(post[n].inputs@[jx] == pre.nodes@[n].inputs@[jx]);
            }
            assert(rank_ok(post, pre.rank@));
            assert(output_ok(post, self.output)) by {
                assert(post[self.output.node as int].spell
                    == pre.nodes@[self.output.node as int].spell);
            }
        }
        Some((res.1, res.2))
    }
}


/// Replacing one node by another with the same wiring and spell, and with
/// enough memoized outputs, preserves every well-formedness invariant.
proof fn lemma_wf_after_update(
    pre: Seq<CircuitNode>,
    post: Seq<CircuitNode>,
    rank: Seq<nat>,
    out: Output,
    n: int,
    node: CircuitNode,
)
    requires
        inputs_wf(pre),
        arities_wf(pre),
        output_ok(pre, out),
        rank_ok(pre, rank),
        0 <= n < pre.len(),
        post == pre.update(n, node),
        node.inputs@ == pre[n].inputs@,
        node.spell == pre[n].spell,
        node.outputs matches Some(os) ==> os@.len() >= node.spell.num_outputs,
    ensures
        inputs_wf(post),
        arities_wf(post),
        output_ok(post, out),
        rank_ok(post, rank),
{
    assert forall|m: int, jx: int|
        0 <= m < post.len() && 0 <= jx < post[m].inputs@.len() implies {
        let o = #[trigger] post[m].inputs@[jx];
        &&& o.node < post.len()
        &&& o.index < post[o.node as int].spell.num_outputs
    } by {
        assert(post[m].inputs@ == pre[m].inputs@);
        let o = post[m].inputs@[jx];
        assert(o == pre[m].inputs@[jx]);
        assert(post[o.node as int].spell == pre[o.node as int].spell);
    }
    assert forall|m: int| 0 <= m < post.len() implies {
        let nd = #[trigger] post[m];
        &&& nd.spell.wf()
        &&& nd.inputs@.len() == nd.spell.num_inputs
        &&& (nd.outputs matches Some(os) ==> os@.len() >= nd.spell.num_outputs)
    } by {
        if m != n {
            assert(post[m] == pre[m]);
        }
    }
    assert forall|m: int, jx: int|
        0 <= m < post.len() && 0 <= jx < post[m].inputs@.len() implies rank[(
    #[trigger] post[m].inputs@[jx]).node as int] < rank[m] by {
        assert(post[m].inputs@ == pre[m].inputs@);
        assert(post[m].inputs@[jx] == pre[m].inputs@[jx]);
    }
    assert(output_ok(post, out)) by {
        assert(post[out.node as int].spell == pre[out.node as int].spell);
    }
}

impl SpellCircuit {
    /// Whether the node about to fire, if any, may fire on this context:
    /// the run-time check behind `execute_next_spell`'s precondition.
    pub fn can_fire(&self, s: &SpellState) -> (b: bool)
        requires
            self.wf(),
        ensures
            b == fire_pre(*self, s@),
    {
        match self.next_to_fire() {
            None => true,
            Some(p) => {
                proof {
                    lemma_next_fire_ready(self.nodes@, self.rank@, self.output);
                }
                let ghost ins = gather(self.nodes@, p.node as int);
                let ghost k = self.nodes@[p.node as int].spell.kind;
                proof {
                    assert(ins.len() == self.nodes@[p.node as int].inputs@.len());
                }
                match self.nodes[p.node].spell.kind {
                    SpellKind::Player | SpellKind::Introspection | SpellKind::Air
                        | SpellKind::Scout => true,
                    SpellKind::Punch | SpellKind::Constrict => {
                        let o = self.nodes[p.node].inputs[0];
                        let v = match &self.nodes[o.node].outputs {
                            Some(os) => os[o.index],
                            None => vstd::pervasive::unreached(),
                        };
                        proof {
                            assert(v == ins[0]);
                        }
                        matches!(v, Value::Target(_))
                    },
                    SpellKind::DrawLife | SpellKind::SpawnCobold => {
                        let o = self.nodes[p.node].inputs[0];
                        let v = match &self.nodes[o.node].outputs {
                            Some(os) => os[o.index],
                            None => vstd::pervasive::unreached(),
                        };
                        proof {
                            assert(v == ins[0]);
                        }
                        match v {
                            Value::Target(e) => s.units.contains_key(&e),
                            _ => false,
                        }
                    },
                }
            },
        }
    }

    /// Force-write the output slot a `SelectRubble` marker points at with a
    /// reference to the selected rubble entity.  This is the one intended
    /// exception to at-most-once memoization: the addressed node must
    /// already be computed, and only the addressed slot changes.
    pub fn resolve_select(&mut self, select: &SelectRubble, rubble: u64)
        requires
            old(self).wf(),
            select.output.node < old(self).nodes@.len(),
            old(self).nodes@[select.output.node as int].outputs matches Some(os)
                && select.output.index < os@.len(),
        ensures
            final(self).wf(),
            final(self).output == old(self).output,
            final(self).rank@ == old(self).rank@,
            final(self).nodes@.len() == old(self).nodes@.len(),
            forall|m: int|
                0 <= m < old(self).nodes@.len() && m != select.output.node as int
                    ==> final(self).nodes@[m] == old(self).nodes@[m],
            final(self).nodes@[select.output.node as int].inputs@ == old(self).nodes@[select.output.node as int].inputs@,
            final(self).nodes@[select.output.node as int].spell == old(self).nodes@[select.output.node as int].spell,
            final(self).nodes@[select.output.node as int].outputs matches Some(os) && os@
                == old(self).nodes@[select.output.node as int].outputs->Some_0@.update(
                select.output.index as int,
                Value::Target(rubble),
            ),
    {
        let ghost pre = *self;
        let n = select.output.node;
        let new_inputs = copy_vec(&self.nodes[n].inputs);
        let spell = self.nodes[n].spell;
        let mut new_outputs = match &self.nodes[n].outputs {
            Some(os) => copy_vec(os),
            None => vstd::pervasive::unreached(),
        };
        new_outputs.set(select.output.index, Value::Target(rubble));
        let node = CircuitNode { inputs: new_inputs, outputs: Some(new_outputs), spell };
        self.nodes.set(n, node);
        proof {
            lemma_wf_after_update(
                pre.nodes@,
                self.nodes@,
                pre.rank@,
                pre.output,
                n as int,
                node,
            );
        }
    }
}

/// The sample circuit: a scout node feeding a cobold-spawning node, with
/// the spawn node's first output designated as the circuit result.
pub fn example_circuit() -> (c: SpellCircuit)
    ensures
        c.wf(),
        !c.complete(),
        c.nodes@.len() == 2,
        c.nodes@[0].spell == (Spell { num_inputs: 0, num_outputs: 1, kind: SpellKind::Scout }),
        c.nodes@[1].spell == (Spell { num_inputs: 1, num_outputs: 1, kind: SpellKind::SpawnCobold }),
        c.nodes@[0].inputs@.len() == 0,
        c.nodes@[1].inputs@ == seq![Output { node: 0, index: 0 }],
        c.nodes@[0].outputs is None,
        c.nodes@[1].outputs is None,
        c.output == (Output { node: 1, index: 0 }),
{
    let scout = CircuitNode::new(Vec::new(), Spell::scout());
    let mut spawn_inputs: Vec<Output> = Vec::new();
    spawn_inputs.push(Output::new(0, 0));
    let spawn = CircuitNode::new(spawn_inputs, Spell::spawn_cobold());
    let mut nodes: Vec<CircuitNode> = Vec::new();
    nodes.push(scout);
    nodes.push(spawn);
    let output = Output::new(1, 0);
    proof {
        assert(nodes@[1].inputs@ =~= seq![Output { node: 0, index: 0 }]);
        let rank: Seq<nat> = seq![0nat, 1nat];
        assert(rank_ok(nodes@, rank) && (forall|i: int|
            0 <= i < nodes@.len() ==> rank[i] < nodes@.len()));
        assert(acyclic(nodes@));
    }
    SpellCircuit::new(nodes, output)
}

/// The barrier condition: every unit's effect queue is empty and no
/// global-effect marker is outstanding.
pub open spec fn drained(queues: Seq<Effects>, outstanding_globals: usize) -> bool {
    &&& outstanding_globals == 0
    &&& forall|i: int| 0 <= i < queues.len() ==> (#[trigger] queues[i]).0@.len() == 0
}

/// Compute the barrier condition from the authoritative queue state.
pub fn effects_done(queues: &Vec<Effects>, outstanding_globals: usize) -> (b: bool)
    ensures
        b == drained(queues@, outstanding_globals),
{
    if outstanding_globals != 0 {
        return false;
    }
    let mut i: usize = 0;
    while i < queues.len()
        invariant
            i <= queues@.len(),
            forall|jj: int| 0 <= jj < i ==> (#[trigger] queues@[jj]).0@.len() == 0,
        decreases queues@.len() - i,
    {
        if queues[i].0.len() > 0 {
            return false;
        }
        i = i + 1;
    }
    true
}

/// One synchronization tick: fire the next node only when the barrier is
/// open, that is when all queued effects have drained and no global marker
/// is outstanding; otherwise leave the circuit untouched.
pub fn execute_if_ready(
    circuit: &mut SpellCircuit,
    s: &SpellState,
    queues: &Vec<Effects>,
    outstanding_globals: usize,
) -> (r: Option<(Vec<(u64, Effect)>, Vec<GlobalEffect>)>)
    requires
        old(circuit).wf(),
        fire_pre(*old(circuit), s@),
    ensures
        final(circuit).wf(),
        !drained(queues@, outstanding_globals) ==> r is None && *final(circuit) == *old(circuit),
        drained(queues@, outstanding_globals) ==> step_post(
            *old(circuit),
            *final(circuit),
            s@,
            result_view(r),
        ),
{
    if effects_done(queues, outstanding_globals) {
        circuit.execute_next_spell(s)
    } else {
        None
    }
}


/// The memoized outputs of a node, as a sequence of values.
pub open spec fn node_outs(n: CircuitNode) -> Option<Seq<Value>> {
    match n.outputs {
        None => None,
        Some(os) => Some(os@),
    }
}

/// Two node lists with the same wiring, spells and memoized values.
pub open spec fn nodes_like(a: Seq<CircuitNode>, b: Seq<CircuitNode>) -> bool {
    &&& a.len() == b.len()
    &&& forall|i: int|
        0 <= i < a.len() ==> {
            &&& (#[trigger] a[i]).inputs@ == b[i].inputs@
            &&& a[i].spell == b[i].spell
            &&& node_outs(a[i]) == node_outs(b[i])
        }
}

/// Two circuits that are indistinguishable to the evaluator.
pub open spec fn same_shape(a: SpellCircuit, b: SpellCircuit) -> bool {
    &&& a.output == b.output
    &&& a.rank@ == b.rank@
    &&& nodes_like(a.nodes@, b.nodes@)
}

proof fn lemma_rank_ok_like(a: Seq<CircuitNode>, b: Seq<CircuitNode>, rank: Seq<nat>)
    requires
        rank_ok(a, rank),
        nodes_like(a, b),
    ensures
        rank_ok(b, rank),
{
    assert forall|n: int, j: int|
        0 <= n < b.len() && 0 <= j < b[n].inputs@.len() implies rank[(
    #[trigger] b[n].inputs@[j]).node as int] < rank[n] by {
        assert(b[n].inputs@ == a[n].inputs@);
        assert(b[n].inputs@[j] == a[n].inputs@[j]);
    }
}

proof fn lemma_inputs_wf_like(a: Seq<CircuitNode>, b: Seq<CircuitNode>)
    requires
        inputs_wf(a),
        nodes_like(a, b),
    ensures
        inputs_wf(b),
{
    assert forall|n: int, j: int|
        0 <= n < b.len() && 0 <= j < b[n].inputs@.len() implies {
        let o = #[trigger] b[n].inputs@[j];
        &&& o.node < b.len()
        &&& o.index < b[o.node as int].spell.num_outputs
    } by {
        assert(b[n].inputs@ == a[n].inputs@);
        let o = b[n].inputs@[j];
        assert(o == a[n].inputs@[j]);
        assert(b[o.node as int].spell == a[o.node as int].spell);
    }
}

/// The evaluator's choice of what fires next depends only on the wiring,
/// the spells, and which nodes are memoized with which values.
proof fn lemma_next_fire_like(a: Seq<CircuitNode>, b: Seq<CircuitNode>, rank: Seq<nat>, o: Output)
    requires
        rank_ok(a, rank),
        inputs_wf(a),
        nodes_like(a, b),
        o.node < a.len(),
    ensures
        next_fire(a, rank, o) == next_fire(b, rank, o),
    decreases rank[o.node as int], a[o.node as int].inputs@.len() + 1,
{
    lemma_rank_ok_like(a, b, rank);
    if a[o.node as int].outputs is Some {
        assert(b[o.node as int].outputs is Some);
    } else {
        assert(b[o.node as int].outputs is None);
        lemma_next_fire_inputs_like(a, b, rank, o.node as int, 0);
    }
}

proof fn lemma_next_fire_inputs_like(
    a: Seq<CircuitNode>,
    b: Seq<CircuitNode>,
    rank: Seq<nat>,
    n: int,
    j: int,
)
    requires
        rank_ok(a, rank),
        inputs_wf(a),
        nodes_like(a, b),
        0 <= n < a.len(),
        0 <= j,
    ensures
        next_fire_inputs(a, rank, n, j) == next_fire_inputs(b, rank, n, j),
    decreases rank[n], a[n].inputs@.len() - j,
{
    lemma_rank_ok_like(a, b, rank);
    assert(b[n].inputs@ == a[n].inputs@);
    if j >= a[n].inputs@.len() {
    } else {
        let o = a[n].inputs@[j];
        assert(o.node < a.len());
        lemma_next_fire_like(a, b, rank, o);
        match next_fire(a, rank, o) {
            Some(_) => {},
            None => {
                lemma_next_fire_inputs_like(a, b, rank, n, j + 1);
            },
        }
    }
}

/// A step's outcome is a function of the circuit and the context alone:
/// circuits that agree on wiring, spells and memoized values, stepped
/// under equal contexts, fire the same node, return the same effects,
/// and again agree afterwards.
pub proof fn lemma_step_deterministic(
    pre1: SpellCircuit,
    pre2: SpellCircuit,
    post1: SpellCircuit,
    post2: SpellCircuit,
    s: StateView,
    r1: Option<(Seq<(u64, Effect)>, Seq<GlobalEffect>)>,
    r2: Option<(Seq<(u64, Effect)>, Seq<GlobalEffect>)>,
)
    requires
        pre1.wf(),
        same_shape(pre1, pre2),
        step_post(pre1, post1, s, r1),
        step_post(pre2, post2, s, r2),
    ensures
        same_shape(post1, post2),
        r1 == r2,
{
    lemma_next_fire_like(pre1.nodes@, pre2.nodes@, pre1.rank@, pre1.output);
    match next_fire(pre1.nodes@, pre1.rank@, pre1.output) {
        None => {},
        Some(p) => {
            let n = p.node as int;
            lemma_next_fire_ready(pre1.nodes@, pre1.rank@, pre1.output);
            assert(gather(pre1.nodes@, n) =~= gather(pre2.nodes@, n)) by {
                assert(pre2.nodes@[n].inputs@ == pre1.nodes@[n].inputs@);
                assert forall|j: int|
                    0 <= j < pre1.nodes@[n].inputs@.len() implies #[trigger] gather(
                    pre1.nodes@,
                    n,
                )[j] == gather(pre2.nodes@, n)[j] by {
                    let o = pre1.nodes@[n].inputs@[j];
                    assert(node_outs(pre1.nodes@[o.node as int])
                        == node_outs(pre2.nodes@[o.node as int]));
                }
            }
            assert(pre2.nodes@[n].spell == pre1.nodes@[n].spell);
            assert(r1 == r2);
            assert forall|i: int| 0 <= i < post1.nodes@.len() implies {
                &&& (#[trigger] post1.nodes@[i]).inputs@ == post2.nodes@[i].inputs@
                &&& post1.nodes@[i].spell == post2.nodes@[i].spell
                &&& node_outs(post1.nodes@[i]) == node_outs(post2.nodes@[i])
            } by {
                if i != n {
                    assert(post1.nodes@[i] == pre1.nodes@[i]);
                    assert(post2.nodes@[i] == pre2.nodes@[i]);
                }
            }
        },
    }
}

/// The circuit states and returned effects of a whole run, one entry per
/// synchronization step: entry `i` must be what one evaluator step on the
/// previous state under context `ctxs[i]` produces.
pub open spec fn run_pre(pre: SpellCircuit, posts: Seq<SpellCircuit>, i: int) -> SpellCircuit {
    if i == 0 {
        pre
    } else {
        posts[i - 1]
    }
}

pub open spec fn run_post(
    pre: SpellCircuit,
    ctxs: Seq<StateView>,
    posts: Seq<SpellCircuit>,
    results: Seq<Option<(Seq<(u64, Effect)>, Seq<GlobalEffect>)>>,
) -> bool {
    &&& posts.len() == ctxs.len()
    &&& results.len() == ctxs.len()
    &&& forall|i: int|
        0 <= i < ctxs.len() ==> step_post(
            run_pre(pre, posts, i),
            #[trigger] posts[i],
            ctxs[i],
            results[i],
        )
}

/// Every step of a run leaves a well-formed circuit behind.
pub proof fn lemma_step_preserves_wf(
    pre: SpellCircuit,
    post: SpellCircuit,
    s: StateView,
    r: Option<(Seq<(u64, Effect)>, Seq<GlobalEffect>)>,
)
    requires
        pre.wf(),
        step_post(pre, post, s, r),
    ensures
        post.wf(),
{
    match next_fire(pre.nodes@, pre.rank@, pre.output) {
        None => {},
        Some(p) => {
            let n = p.node as int;
            lemma_next_fire_ready(pre.nodes@, pre.rank@, pre.output);
            let a = pre.nodes@;
            let b = post.nodes@;
            assert forall|m: int, jx: int|
                0 <= m < b.len() && 0 <= jx < b[m].inputs@.len() implies {
                let o = #[trigger] b[m].inputs@[jx];
                &&& o.node < b.len()
                &&& o.index < b[o.node as int].spell.num_outputs
            } by {
                assert(b[m].inputs@ == a[m].inputs@);
                let o = b[m].inputs@[jx];
                assert(o == a[m].inputs@[jx]);
                assert(b[o.node as int].spell == a[o.node as int].spell);
            }
            assert forall|m: int| 0 <= m < b.len() implies {
                let nd = #[trigger] b[m];
                &&& nd.spell.wf()
                &&& nd.inputs@.len() == nd.spell.num_inputs
                &&& (nd.outputs matches Some(os) ==> os@.len() >= nd.spell.num_outputs)
            } by {
                if m == n {
                    crate::spell::lemma_cast_outputs_len(
                        a[n].spell.kind,
                        with_output(s, p),
                        gather(a, n),
                    );
                } else {
                    assert(b[m] == a[m]);
                }
            }
            assert forall|m: int, jx: int|
                0 <= m < b.len() && 0 <= jx < b[m].inputs@.len() implies pre.rank@[(
            #[trigger] b[m].inputs@[jx]).node as int] < pre.rank@[m] by {
                assert(b[m].inputs@ == a[m].inputs@);
                assert(b[m].inputs@[jx] == a[m].inputs@[jx]);
            }
            assert(output_ok(b, post.output)) by {
                assert(b[post.output.node as int].spell == a[post.output.node as int].spell);
            }
        },
    }
}

proof fn lemma_run_wf(
    pre: SpellCircuit,
    ctxs: Seq<StateView>,
    posts: Seq<SpellCircuit>,
    results: Seq<Option<(Seq<(u64, Effect)>, Seq<GlobalEffect>)>>,
    i: int,
)
    requires
        pre.wf(),
        run_post(pre, ctxs, posts, results),
        0 <= i < ctxs.len(),
    ensures
        posts[i].wf(),
    decreases i,
{
    if i == 0 {
        lemma_step_preserves_wf(pre, posts[0], ctxs[0], results[0]);
    } else {
        lemma_run_wf(pre, ctxs, posts, results, i - 1);
        lemma_step_preserves_wf(posts[i - 1], posts[i], ctxs[i], results[i]);
    }
}

/// Whole runs are reproducible: from circuits that agree on wiring,
/// spells and memoized values, a fixed context sequence yields, step by
/// step, the same fired nodes, the same effects, and agreeing circuit
/// states.
pub proof fn lemma_run_deterministic(
    pre1: SpellCircuit,
    pre2: SpellCircuit,
    ctxs: Seq<StateView>,
    posts1: Seq<SpellCircuit>,
    results1: Seq<Option<(Seq<(u64, Effect)>, Seq<GlobalEffect>)>>,
    posts2: Seq<SpellCircuit>,
    results2: Seq<Option<(Seq<(u64, Effect)>, Seq<GlobalEffect>)>>,
    i: int,
)
    requires
        pre1.wf(),
        same_shape(pre1, pre2),
        run_post(pre1, ctxs, posts1, results1),
        run_post(pre2, ctxs, posts2, results2),
        0 <= i < ctxs.len(),
    ensures
        same_shape(posts1[i], posts2[i]),
        results1[i] == results2[i],
    decreases i,
{
    if i == 0 {
        lemma_step_deterministic(pre1, pre2, posts1[0], posts2[0], ctxs[0], results1[0], results2[0]);
    } else {
        lemma_run_deterministic(pre1, pre2, ctxs, posts1, results1, posts2, results2, i - 1);
        lemma_run_wf(pre1, ctxs, posts1, results1, i - 1);
        lemma_step_deterministic(
            posts1[i - 1],
            posts2[i - 1],
            posts1[i],
            posts2[i],
            ctxs[i],
            results1[i],
            results2[i],
        );
    }
}

/// The node that fires was not yet memoized, and a step never touches an
/// already memoized node: memoization is written once and then final.
pub proof fn lemma_memoization(
    pre: SpellCircuit,
    post: SpellCircuit,
    s: StateView,
    r: Option<(Seq<(u64, Effect)>, Seq<GlobalEffect>)>,
    p: Output,
)
    requires
        pre.wf(),
        step_post(pre, post, s, r),
        Some(p) == next_fire(pre.nodes@, pre.rank@, pre.output),
    ensures
        pre.nodes@[p.node as int].outputs is None,
        forall|m: int|
            0 <= m < pre.nodes@.len() && (#[trigger] pre.nodes@[m]).outputs is Some
                ==> post.nodes@[m] == pre.nodes@[m],
{
    lemma_next_fire_ready(pre.nodes@, pre.rank@, pre.output);
}

proof fn lemma_computed_monotonic(
    pre: SpellCircuit,
    ctxs: Seq<StateView>,
    posts: Seq<SpellCircuit>,
    results: Seq<Option<(Seq<(u64, Effect)>, Seq<GlobalEffect>)>>,
    m: int,
    a: int,
    b: int,
)
    requires
        run_post(pre, ctxs, posts, results),
        0 <= a <= b < ctxs.len(),
        posts[a].nodes@[m].outputs is Some,
        0 <= m < posts[a].nodes@.len(),
    ensures
        m < posts[b].nodes@.len(),
        posts[b].nodes@[m].outputs is Some,
    decreases b - a,
{
    if b > a {
        lemma_computed_monotonic(pre, ctxs, posts, results, m, a, b - 1);
        assert(step_post(run_pre(pre, posts, b), posts[b], ctxs[b], results[b]));
        match next_fire(posts[b - 1].nodes@, posts[b - 1].rank@, posts[b - 1].output) {
            None => {},
            Some(q) => {
                if m != q.node as int {
                    assert(posts[b].nodes@[m] == posts[b - 1].nodes@[m]);
                }
            },
        }
    }
}

/// No node fires at two different steps of a run, so each node's spell
/// runs once per circuit lifetime: firing memoizes the node, memoized
/// nodes stay memoized, and only unmemoized nodes fire.
pub proof fn lemma_at_most_once(
    pre: SpellCircuit,
    ctxs: Seq<StateView>,
    posts: Seq<SpellCircuit>,
    results: Seq<Option<(Seq<(u64, Effect)>, Seq<GlobalEffect>)>>,
    i: int,
    j: int,
    p: Output,
    q: Output,
)
    requires
        pre.wf(),
        run_post(pre, ctxs, posts, results),
        0 <= i < j < ctxs.len(),
        Some(p) == next_fire(
            run_pre(pre, posts, i).nodes@,
            run_pre(pre, posts, i).rank@,
            run_pre(pre, posts, i).output,
        ),
        Some(q) == next_fire(
            run_pre(pre, posts, j).nodes@,
            run_pre(pre, posts, j).rank@,
            run_pre(pre, posts, j).output,
        ),
    ensures
        p.node != q.node,
{
    let pre_i = run_pre(pre, posts, i);
    let pre_j = run_pre(pre, posts, j);
    if i > 0 {
        lemma_run_wf(pre, ctxs, posts, results, i - 1);
    }
    lemma_run_wf(pre, ctxs, posts, results, j - 1);
    lemma_next_fire_ready(pre_i.nodes@, pre_i.rank@, pre_i.output);
    lemma_next_fire_ready(pre_j.nodes@, pre_j.rank@, pre_j.output);
    assert(step_post(pre_i, posts[i], ctxs[i], results[i]));
    assert(posts[i].nodes@[p.node as int].outputs is Some);
    lemma_computed_monotonic(pre, ctxs, posts, results, p.node as int, i, j - 1);
    assert(pre_j.nodes@[q.node as int].outputs is None);
}

/// While a node is unevaluated, the first of its input subtrees that
/// still has work, in input-slot order, determines what fires next.
pub proof fn lemma_firing_order(nodes: Seq<CircuitNode>, rank: Seq<nat>, o: Output, j: int)
    requires
        rank_ok(nodes, rank),
        inputs_wf(nodes),
        o.node < nodes.len(),
        nodes[o.node as int].outputs is None,
        0 <= j < nodes[o.node as int].inputs@.len(),
        forall|jj: int|
            0 <= jj < j ==> next_fire(
                nodes,
                rank,
                #[trigger] nodes[o.node as int].inputs@[jj],
            ) is None,
        next_fire(nodes, rank, nodes[o.node as int].inputs@[j]) is Some,
    ensures
        next_fire(nodes, rank, o) == next_fire(nodes, rank, nodes[o.node as int].inputs@[j]),
{
    lemma_next_fire_inputs_prefix(nodes, rank, o.node as int, j);
}

/// An unevaluated node whose input subtrees are all quiet fires itself.
pub proof fn lemma_fires_self(nodes: Seq<CircuitNode>, rank: Seq<nat>, o: Output)
    requires
        rank_ok(nodes, rank),
        inputs_wf(nodes),
        o.node < nodes.len(),
        nodes[o.node as int].outputs is None,
        forall|jj: int|
            0 <= jj < nodes[o.node as int].inputs@.len() ==> next_fire(
                nodes,
                rank,
                #[trigger] nodes[o.node as int].inputs@[jj],
            ) is None,
    ensures
        next_fire(nodes, rank, o) == Some(o),
{
    lemma_next_fire_inputs_prefix(nodes, rank, o.node as int, nodes[o.node as int].inputs@.len() as int);
}

/// Once the output node is computed, further steps leave every node
/// untouched and report that there is no new work.
pub proof fn lemma_complete_idempotent(
    pre: SpellCircuit,
    post: SpellCircuit,
    s: StateView,
    r: Option<(Seq<(u64, Effect)>, Seq<GlobalEffect>)>,
)
    requires
        pre.wf(),
        pre.complete(),
        step_post(pre, post, s, r),
    ensures
        r is None,
        post.nodes@ == pre.nodes@,
        post.output == pre.output,
        post.rank@ == pre.rank@,
{
    assert(next_fire(pre.nodes@, pre.rank@, pre.output) is None);
}

} // verus!
