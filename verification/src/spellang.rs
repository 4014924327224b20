use vstd::prelude::*;
use vstd::pervasive::VecAdditionalExecFns;
use crate::effect::{Damage, Effect, Move};
use crate::types::Position;

verus! {

/// The context the simple engine evaluates against: the primary entity and
/// the opposing entities, by identifier.
pub struct State {
    pub player: u64,
    pub enemies: Vec<u64>,
}

/// The mathematical content of a [`State`].
pub struct StateSnap {
    pub player: u64,
    pub enemies: Seq<u64>,
}

impl View for State {
    type V = StateSnap;

    open spec fn view(&self) -> StateSnap {
        StateSnap { player: self.player, enemies: self.enemies@ }
    }
}

/// A datum flowing along an edge of the simple engine.
#[derive(Clone, Copy, Debug, PartialEq, Eq, Structural)]
pub enum Value {
    Target(u64),
    Empty,
}

/// The behaviours the simple engine's spells draw from.
#[derive(Clone, Copy, Debug, PartialEq, Eq, Structural)]
pub enum Routine {
    /// No inputs; outputs a reference to the primary entity.
    Player,
    /// Consumes a target; deals it a fixed large blow.
    Punch,
    /// Consumes a target; orders it to walk to the spot (42, 42).
    MoveTo42,
}

pub open spec fn routine_num_inputs(k: Routine) -> nat {
    match k {
        Routine::Player => 0,
        Routine::Punch => 1,
        Routine::MoveTo42 => 1,
    }
}

pub open spec fn routine_num_outputs(k: Routine) -> nat {
    1
}

/// The inputs a routine can run on: a routine that consumes a target must
/// really receive one.
pub open spec fn routine_pre(k: Routine, inputs: Seq<Value>) -> bool {
    match k {
        Routine::Player => true,
        Routine::Punch | Routine::MoveTo42 => inputs.len() >= 1 && inputs[0] is Target,
    }
}

/// The output values a routine produces.  They never depend on more than
/// the context's primary entity, so evaluation is memoizable.
pub open spec fn routine_outputs(k: Routine, s: StateSnap, inputs: Seq<Value>) -> Seq<Value> {
    match k {
        Routine::Player => seq![Value::Target(s.player)],
        Routine::Punch => seq![Value::Empty],
        Routine::MoveTo42 => seq![Value::Empty],
    }
}

/// The per-target effects a routine emits when it runs.
pub open spec fn routine_effects(k: Routine, s: StateSnap, inputs: Seq<Value>) -> Seq<
    (u64, Effect),
> {
    match k {
        Routine::Player => Seq::empty(),
        Routine::Punch => seq![
            (inputs[0]->Target_0, Effect::Damage(Damage { damage: 69 })),
        ],
        Routine::MoveTo42 => seq![
            (inputs[0]->Target_0, Effect::Move(Move { target: Position { x: 42, y: 42 } })),
        ],
    }
}

/// A computation unit of the simple engine: its declared arities, its
/// behaviour, and its memoization cell, which lives on the spell itself.
pub struct Spell {
    pub num_inputs: usize,
    pub num_outputs: usize,
    pub outputs: Option<Vec<Value>>,
    pub kind: Routine,
}

/// The stable part of a spell: what evaluation depends on.  Memoizing
/// results changes a spell's cell but never its signature.
pub struct SpellSig {
    pub num_inputs: nat,
    pub num_outputs: nat,
    pub kind: Routine,
}

pub open spec fn sig_of(sp: Spell) -> SpellSig {
    SpellSig {
        num_inputs: sp.num_inputs as nat,
        num_outputs: sp.num_outputs as nat,
        kind: sp.kind,
    }
}

pub open spec fn sigs(spells: Seq<Spell>) -> Seq<SpellSig> {
    Seq::new(spells.len(), |i: int| sig_of(spells[i]))
}

impl Spell {
    /// A spell may declare at most as many outputs as its routine
    /// produces; only declared slots are addressable.
    pub open spec fn wf(self) -> bool {
        &&& self.num_inputs == routine_num_inputs(self.kind)
        &&& 1 <= self.num_outputs <= routine_num_outputs(self.kind)
    }

    pub fn new(num_inputs: usize, num_outputs: usize, kind: Routine) -> (sp: Spell)
        requires
            num_inputs == routine_num_inputs(kind),
            1 <= num_outputs <= routine_num_outputs(kind),
        ensures
            sp.num_inputs == num_inputs,
            sp.num_outputs == num_outputs,
            sp.kind == kind,
            sp.outputs is None,
            sp.wf(),
    {
        Spell { num_inputs, num_outputs, outputs: None, kind }
    }
}

/// One vertex of the simple engine's graph; it names its spell by index
/// into the circuit's spell list.
pub struct Node {
    pub inputs: Vec<Output>,
    pub spell_idx: usize,
}

/// Address of one output slot of one node.
#[derive(Clone, Copy, Debug, PartialEq, Eq, Structural)]
pub struct Output {
    pub node: usize,
    pub index: usize,
}

impl Output {
    pub fn new(node: usize, index: usize) -> (o: Output)
        ensures
            o.node == node,
            o.index == index,
    {
        Output { node, index }
    }
}

/// Why evaluation can fail on an externally authored graph.
#[derive(Clone, Copy, Debug, PartialEq, Eq, Structural)]
pub enum CircuitError {
    /// A pointer asked for an output slot beyond its node's declared
    /// output arity.
    MissingOutput(Output),
    /// A node offers fewer wired inputs than its spell consumes; the
    /// payload is the spell's index.
    MissingInputs(usize),
}


/// Every node names an existing spell and points only at existing nodes.
pub open spec fn nodes_bounded(nodes: Seq<Node>, n_spells: nat) -> bool {
    forall|i: int|
        0 <= i < nodes.len() ==> {
            let nd = #[trigger] nodes[i];
            &&& nd.spell_idx < n_spells
            &&& forall|j: int|
                0 <= j < nd.inputs@.len() ==> (#[trigger] nd.inputs@[j]).node < nodes.len()
        }
}

/// `rank` witnesses that the wiring is acyclic.
pub open spec fn links_ranked(nodes: Seq<Node>, rank: Seq<nat>) -> bool {
    &&& rank.len() == nodes.len()
    &&& forall|i: int, j: int|
        0 <= i < nodes.len() && 0 <= j < nodes[i].inputs@.len()
            ==> rank[(#[trigger] nodes[i].inputs@[j]).node as int] < rank[i]
}

/// No two nodes share a spell, so each spell's memoization cell belongs
/// to exactly one node.
pub open spec fn spells_owned(nodes: Seq<Node>) -> bool {
    forall|i: int, j: int|
        0 <= i < nodes.len() && 0 <= j < nodes.len() && i != j ==> (#[trigger] nodes[i]).spell_idx
            != (#[trigger] nodes[j]).spell_idx
}

/// Every memoization cell replays exactly what evaluation under `s` would
/// compute afresh.
pub open spec fn caches_ok(
    nodes: Seq<Node>,
    spells: Seq<Spell>,
    rank: Seq<nat>,
    s: StateSnap,
) -> bool {
    forall|n: int|
        0 <= n < nodes.len() ==> {
            let nd = #[trigger] nodes[n];
            spells[nd.spell_idx as int].outputs matches Some(os) ==> {
                let r = eval_inputs(nodes, sigs(spells), s, rank, n, 0);
                &&& r is Ok
                &&& r->Ok_0.len() >= spells[nd.spell_idx as int].num_inputs
                &&& os@ == routine_outputs(spells[nd.spell_idx as int].kind, s, r->Ok_0)
            }
        }
}

/// Evaluation of the slot `o` points at, ignoring memoization: the value
/// the routine of `o`'s node produces from its recursively evaluated
/// inputs, or the first error met on the way, inputs first, left to right.
pub open spec fn eval(
    nodes: Seq<Node>,
    sg: Seq<SpellSig>,
    s: StateSnap,
    rank: Seq<nat>,
    o: Output,
) -> Result<Value, CircuitError>
    decreases rank[o.node as int], nodes[o.node as int].inputs@.len() + 1,
        when o.node < nodes.len() && links_ranked(nodes, rank) && nodes_bounded(nodes, sg.len())
{
    let nd = nodes[o.node as int];
    let sig = sg[nd.spell_idx as int];
    if o.index >= sig.num_outputs {
        Err(CircuitError::MissingOutput(o))
    } else {
        match eval_inputs(nodes, sg, s, rank, o.node as int, 0) {
            Err(e) => Err(e),
            Ok(vals) => if vals.len() < sig.num_inputs {
                Err(CircuitError::MissingInputs(nd.spell_idx))
            } else {
                Ok(routine_outputs(sig.kind, s, vals)[o.index as int])
            },
        }
    }
}

/// The values of the input slots `j` and onward of node `n`, or the first
/// error met evaluating them.
pub open spec fn eval_inputs(
    nodes: Seq<Node>,
    sg: Seq<SpellSig>,
    s: StateSnap,
    rank: Seq<nat>,
    n: int,
    j: int,
) -> Result<Seq<Value>, CircuitError>
    decreases rank[n], nodes[n].inputs@.len() - j,
        when 0 <= n < nodes.len() && 0 <= j && links_ranked(nodes, rank) && nodes_bounded(
            nodes,
            sg.len(),
        )
{
    if j >= nodes[n].inputs@.len() {
        Ok(Seq::empty())
    } else {
        match eval(nodes, sg, s, rank, nodes[n].inputs@[j]) {
            Err(e) => Err(e),
            Ok(v) => match eval_inputs(nodes, sg, s, rank, n, j + 1) {
                Err(e) => Err(e),
                Ok(rest) => Ok(seq![v] + rest),
            },
        }
    }
}

/// The simple engine's compiled circuit: nodes wired by index, the spell
/// list they draw from, and the designated result pointer.
pub struct SpellCircuit {
    pub nodes: Vec<Node>,
    pub output: Output,
    pub spells: Vec<Spell>,
    pub rank: Ghost<Seq<nat>>,
}

impl SpellCircuit {
    /// The structural floor under evaluation: indices stay in range, each
    /// node owns its spell, the wiring is acyclic, every spell's declared
    /// arities fit its routine, and memoized cells hold enough values for
    /// their declared slots.  Pointer slot indices may still be out of
    /// range: `execute` reports those as recoverable errors.
    pub open spec fn bounds_wf(self) -> bool {
        &&& nodes_bounded(self.nodes@, self.spells@.len())
        &&& spells_owned(self.nodes@)
        &&& links_ranked(self.nodes@, self.rank@)
        &&& self.output.node < self.nodes@.len()
        &&& forall|k: int| 0 <= k < self.spells@.len() ==> (#[trigger] self.spells@[k]).wf()
        &&& forall|k: int|
            0 <= k < self.spells@.len() ==> ((#[trigger] self.spells@[k]).outputs matches Some(os)
                ==> os@.len() >= self.spells@[k].num_outputs)
    }

    /// Every memoization cell replays exactly what evaluation under `s`
    /// would compute afresh: the engine's central soundness invariant,
    /// resting on routines being pure and the context held fixed.
    pub open spec fn cache_consistent(self, s: StateSnap) -> bool {
        caches_ok(self.nodes@, self.spells@, self.rank@, s)
    }

    /// Evaluate the circuit's designated result to a value, memoizing each
    /// spell's outputs along the way.  An out-of-range slot pointer or an
    /// under-wired node is reported as a recoverable error, since a graph
    /// may be externally authored; the reported value is exactly what
    /// memoization-free evaluation would compute.
    pub fn execute(&mut self, s: &State) -> (r: Result<Value, CircuitError>)
        requires
            old(self).bounds_wf(),
            old(self).cache_consistent(s@),
        ensures
            final(self).bounds_wf(),
            final(self).cache_consistent(s@),
            final(self).nodes@ == old(self).nodes@,
            final(self).output == old(self).output,
            final(self).rank@ == old(self).rank@,
            sigs(final(self).spells@) == sigs(old(self).spells@),
            forall|k: int|
                0 <= k < old(self).spells@.len() && (#[trigger] old(self).spells@[k]).outputs
                    is Some ==> final(self).spells@[k] == old(self).spells@[k],
            r == eval(old(self).nodes@, sigs(old(self).spells@), s@, old(self).rank@, old(self).output),
    {
        let out = self.output;
        self.execute_rec(s, out)
    }

    #[verifier::loop_isolation(false)]
    fn execute_rec(&mut self, s: &State, o: Output) -> (r: Result<Value, CircuitError>)
        requires
            old(self).bounds_wf(),
            old(self).cache_consistent(s@),
            o.node < old(self).nodes@.len(),
        ensures
            final(self).bounds_wf(),
            final(self).cache_consistent(s@),
            final(self).nodes@ == old(self).nodes@,
            final(self).output == old(self).output,
            final(self).rank@ == old(self).rank@,
            final(self).spells@.len() == old(self).spells@.len(),
            sigs(final(self).spells@) == sigs(old(self).spells@),
            forall|k: int|
                0 <= k < old(self).spells@.len() && (#[trigger] old(self).spells@[k]).outputs
                    is Some ==> final(self).spells@[k] == old(self).spells@[k],
            r == eval(old(self).nodes@, sigs(old(self).spells@), s@, old(self).rank@, o),
        decreases old(self).rank@[o.node as int],
    {
        let ghost sg = sigs(self.spells@);
        let spell_idx = self.nodes[o.node].spell_idx;
        proof {
            assert(sg[spell_idx as int] == sig_of(self.spells@[spell_idx as int]));
        }
        if o.index >= self.spells[spell_idx].num_outputs {
            return Err(CircuitError::MissingOutput(o));
        }
        if self.spells[spell_idx].outputs.is_some() {
            let v = match &self.spells[spell_idx].outputs {
                Some(os) => os[o.index],
                None => vstd::pervasive::unreached(),
            };
            proof {
                assert(self.spells@[spell_idx as int].outputs matches Some(os)
                    ==> os@.len() >= self.spells@[spell_idx as int].num_outputs);
            }
            return Ok(v);
        }
        let ghost pre = *self;
        let num_ins = self.nodes[o.node].inputs.len();
        let mut vals: Vec<Value> = Vec::new();
        let mut j: usize = 0;
        while j < num_ins
            invariant
                j <= num_ins,
                vals@.len() == j,
                self.bounds_wf(),
                self.cache_consistent(s@),
                self.nodes@ == pre.nodes@,
                self.output == pre.output,
                self.rank@ == pre.rank@,
                self.spells@.len() == pre.spells@.len(),
                sigs(self.spells@) == sigs(pre.spells@),
                forall|k: int|
                    0 <= k < pre.spells@.len() && (#[trigger] pre.spells@[k]).outputs is Some
                        ==> self.spells@[k] == pre.spells@[k],
                eval_inputs(pre.nodes@, sg, s@, pre.rank@, o.node as int, 0) == (match eval_inputs(
                    pre.nodes@,
                    sg,
                    s@,
                    pre.rank@,
                    o.node as int,
                    j as int,
                ) {
                    Ok(rest) => Ok(vals@ + rest),
                    Err(e) => Err::<Seq<Value>, CircuitError>(e),
                }),
            decreases num_ins - j,
        {
            let ov = self.nodes[o.node].inputs[j];
            let ghost before = *self;
            let r = self.execute_rec(s, ov);
            match r {
                Err(e) => {
                    proof {
                        assert(eval(pre.nodes@, sg, s@, pre.rank@, ov) == Err::<
                            Value,
                            CircuitError,
                        >(e));
                        assert(eval_inputs(pre.nodes@, sg, s@, pre.rank@, o.node as int, j as int)
                            == Err::<Seq<Value>, CircuitError>(e));
                    }
                    return Err(e);
                },
                Ok(v) => {
                    proof {
                        let jj = j as int;
                        assert(ov == pre.nodes@[o.node as int].inputs@[jj]);
                        assert(eval(pre.nodes@, sg, s@, pre.rank@, ov) == Ok::<
                            Value,
                            CircuitError,
                        >(v));
                        match eval_inputs(pre.nodes@, sg, s@, pre.rank@, o.node as int, jj + 1) {
                            Ok(rest2) => {
                                assert(eval_inputs(pre.nodes@, sg, s@, pre.rank@, o.node as int, jj)
                                    == Ok::<Seq<Value>, CircuitError>(seq![v] + rest2));
                                assert(vals@ + (seq![v] + rest2) =~= vals@.push(v) + rest2);
                            },
                            Err(e2) => {
                                assert(eval_inputs(pre.nodes@, sg, s@, pre.rank@, o.node as int, jj)
                                    == Err::<Seq<Value>, CircuitError>(e2));
                            },
                        }
                    }
                    vals.push(v);
                },
            }
            j = j + 1;
        }
        proof {
            assert(eval_inputs(pre.nodes@, sg, s@, pre.rank@, o.node as int, num_ins as int)
                == Ok::<Seq<Value>, CircuitError>(Seq::empty()));
            assert(vals@ + Seq::<Value>::empty() =~= vals@);
            assert(eval_inputs(pre.nodes@, sg, s@, pre.rank@, o.node as int, 0) == Ok::<
                Seq<Value>,
                CircuitError,
            >(vals@));
        }
        let num_inputs_decl = self.spells[spell_idx].num_inputs;
        if vals.len() < num_inputs_decl {
            return Err(CircuitError::MissingInputs(spell_idx));
        }
        let kind = self.spells[spell_idx].kind;
        let num_outputs_decl = self.spells[spell_idx].num_outputs;
        let outs = routine_apply_outputs(kind, s, &vals);
        let v = outs[o.index];
        let ghost before_set = *self;
        let new_spell = Spell {
            num_inputs: num_inputs_decl,
            num_outputs: num_outputs_decl,
            outputs: Some(outs),
            kind,
        };
        self.spells.set(spell_idx, new_spell);
        proof {
            assert(sigs(self.spells@) =~= sigs(before_set.spells@));
            assert forall|n: int| 0 <= n < self.nodes@.len() implies {
                let nd = #[trigger] self.nodes@[n];
                self.spells@[nd.spell_idx as int].outputs matches Some(os) ==> {
                    let rr = eval_inputs(self.nodes@, sigs(self.spells@), s@, self.rank@, n, 0);
                    &&& rr is Ok
                    &&& rr->Ok_0.len() >= self.spells@[nd.spell_idx as int].num_inputs
                    &&& os@ == routine_outputs(self.spells@[nd.spell_idx as int].kind, s@, rr->Ok_0)
                }
            } by {
                let nd = self.nodes@[n];
                if nd.spell_idx == spell_idx {
                    assert(n == o.node as int);
                } else {
                    assert(self.spells@[nd.spell_idx as int]
                        == before_set.spells@[nd.spell_idx as int]);
                }
            }
        }
        Ok(v)
    }
}

/// Run a routine for its output values alone.
fn routine_apply_outputs(kind: Routine, s: &State, vals: &Vec<Value>) -> (r: Vec<Value>)
    ensures
        r@ == routine_outputs(kind, s@, vals@),
{
    let r = match kind {
        Routine::Player => vec![Value::Target(s.player)],
        Routine::Punch => vec![Value::Empty],
        Routine::MoveTo42 => vec![Value::Empty],
    };
    proof {
        assert(r@ =~= routine_outputs(kind, s@, vals@));
    }
    r
}


/// Every input pointer addresses a slot its source node's spell declares.
pub open spec fn slots_wf(nodes: Seq<Node>, spells: Seq<Spell>) -> bool {
    forall|i: int, j: int|
        0 <= i < nodes.len() && 0 <= j < nodes[i].inputs@.len() ==> {
            let o = #[trigger] nodes[i].inputs@[j];
            o.index < spells[nodes[o.node as int].spell_idx as int].num_outputs
        }
}

/// Every node offers exactly as many inputs as its spell consumes.
pub open spec fn arity_wf(nodes: Seq<Node>, spells: Seq<Spell>) -> bool {
    forall|i: int|
        0 <= i < nodes.len() ==> (#[trigger] nodes[i]).inputs@.len()
            == spells[nodes[i].spell_idx as int].num_inputs
}

/// The node that fires when stepwise evaluation is asked for the subtree
/// rooted at node `n`: `None` if `n`'s spell is already memoized,
/// otherwise the first firing node found in its input subtrees in input
/// order, and `n` itself once every input subtree is quiet.
pub open spec fn next_cast(nodes: Seq<Node>, spells: Seq<Spell>, rank: Seq<nat>, n: int) -> Option<
    int,
>
    decreases rank[n], nodes[n].inputs@.len() + 1,
        when 0 <= n < nodes.len() && links_ranked(nodes, rank) && nodes_bounded(
            nodes,
            spells.len(),
        )
{
    if spells[nodes[n].spell_idx as int].outputs is Some {
        None
    } else {
        match next_cast_inputs(nodes, spells, rank, n, 0) {
            Some(m) => Some(m),
            None => Some(n),
        }
    }
}

pub open spec fn next_cast_inputs(
    nodes: Seq<Node>,
    spells: Seq<Spell>,
    rank: Seq<nat>,
    n: int,
    j: int,
) -> Option<int>
    decreases rank[n], nodes[n].inputs@.len() - j,
        when 0 <= n < nodes.len() && 0 <= j && links_ranked(nodes, rank) && nodes_bounded(
            nodes,
            spells.len(),
        )
{
    if j >= nodes[n].inputs@.len() {
        None
    } else {
        match next_cast(nodes, spells, rank, nodes[n].inputs@[j].node as int) {
            Some(m) => Some(m),
            None => next_cast_inputs(nodes, spells, rank, n, j + 1),
        }
    }
}

/// The input values node `n` consumes, each replayed from the memoization
/// cell of the spell its input pointer's node owns.
pub open spec fn gather_cached(nodes: Seq<Node>, spells: Seq<Spell>, n: int) -> Seq<Value> {
    Seq::new(
        nodes[n].inputs@.len(),
        |j: int|
            {
                let o = nodes[n].inputs@[j];
                spells[nodes[o.node as int].spell_idx as int].outputs->Some_0@[o.index as int]
            },
    )
}

/// A firing node's spell is unmemoized while all its inputs' spells are
/// memoized; a quiet subtree has a memoized root.
proof fn lemma_next_cast_ready(nodes: Seq<Node>, spells: Seq<Spell>, rank: Seq<nat>, n: int)
    requires
        links_ranked(nodes, rank),
        nodes_bounded(nodes, spells.len()),
        0 <= n < nodes.len(),
    ensures
        match next_cast(nodes, spells, rank, n) {
            None => spells[nodes[n].spell_idx as int].outputs is Some,
            Some(m) => {
                &&& 0 <= m < nodes.len()
                &&& spells[nodes[m].spell_idx as int].outputs is None
                &&& forall|j: int|
                    0 <= j < nodes[m].inputs@.len() ==> spells[nodes[(
                    #[trigger] nodes[m].inputs@[j]).node as int].spell_idx as int].outputs is Some
            },
        },
    decreases rank[n], nodes[n].inputs@.len() + 1,
{
    if spells[nodes[n].spell_idx as int].outputs is Some {
    } else {
        lemma_next_cast_inputs_ready(nodes, spells, rank, n, 0);
    }
}

proof fn lemma_next_cast_inputs_ready(
    nodes: Seq<Node>,
    spells: Seq<Spell>,
    rank: Seq<nat>,
    n: int,
    j: int,
)
    requires
        links_ranked(nodes, rank),
        nodes_bounded(nodes, spells.len()),
        0 <= n < nodes.len(),
        0 <= j,
    ensures
        match next_cast_inputs(nodes, spells, rank, n, j) {
            None => forall|jj: int|
                j <= jj < nodes[n].inputs@.len() ==> spells[nodes[(
                #[trigger] nodes[n].inputs@[jj]).node as int].spell_idx as int].outputs is Some,
            Some(m) => {
                &&& 0 <= m < nodes.len()
                &&& spells[nodes[m].spell_idx as int].outputs is None
                &&& forall|jj: int|
                    0 <= jj < nodes[m].inputs@.len() ==> spells[nodes[(
                    #[trigger] nodes[m].inputs@[jj]).node as int].spell_idx as int].outputs
                        is Some
            },
        },
    decreases rank[n], nodes[n].inputs@.len() - j,
{
    if j >= nodes[n].inputs@.len() {
    } else {
        lemma_next_cast_ready(nodes, spells, rank, nodes[n].inputs@[j].node as int);
        match next_cast(nodes, spells, rank, nodes[n].inputs@[j].node as int) {
            Some(_) => {},
            None => {
                lemma_next_cast_inputs_ready(nodes, spells, rank, n, j + 1);
            },
        }
    }
}

/// Skipping input subtrees known to be quiet does not change which node
/// fires next.
proof fn lemma_next_cast_prefix(nodes: Seq<Node>, spells: Seq<Spell>, rank: Seq<nat>, n: int, j: int)
    requires
        links_ranked(nodes, rank),
        nodes_bounded(nodes, spells.len()),
        0 <= n < nodes.len(),
        0 <= j <= nodes[n].inputs@.len(),
        forall|jj: int|
            0 <= jj < j ==> next_cast(
                nodes,
                spells,
                rank,
                (#[trigger] nodes[n].inputs@[jj]).node as int,
            ) is None,
    ensures
        next_cast_inputs(nodes, spells, rank, n, 0) == next_cast_inputs(nodes, spells, rank, n, j),
    decreases j,
{
    if j > 0 {
        assert(next_cast(nodes, spells, rank, nodes[n].inputs@[j - 1].node as int) is None);
        assert(next_cast_inputs(nodes, spells, rank, n, j - 1) == next_cast_inputs(
            nodes,
            spells,
            rank,
            n,
            j,
        ));
        lemma_next_cast_prefix(nodes, spells, rank, n, j - 1);
    }
}

/// Reading a memoized cell replays exactly what evaluation computes.
proof fn lemma_eval_at_cached(
    nodes: Seq<Node>,
    spells: Seq<Spell>,
    rank: Seq<nat>,
    s: StateSnap,
    o: Output,
)
    requires
        links_ranked(nodes, rank),
        nodes_bounded(nodes, spells.len()),
        slots_wf(nodes, spells),
        caches_ok(nodes, spells, rank, s),
        forall|k: int| 0 <= k < spells.len() ==> (#[trigger] spells[k]).wf(),
        o.node < nodes.len(),
        spells[nodes[o.node as int].spell_idx as int].outputs is Some,
        exists|i: int, j: int|
            0 <= i < nodes.len() && 0 <= j < nodes[i].inputs@.len() && nodes[i].inputs@[j] == o,
    ensures
        eval(nodes, sigs(spells), s, rank, o) == Ok::<Value, CircuitError>(
            spells[nodes[o.node as int].spell_idx as int].outputs->Some_0@[o.index as int],
        ),
{
    let idx = nodes[o.node as int].spell_idx as int;
    let i = choose|i: int, j: int|
        0 <= i < nodes.len() && 0 <= j < nodes[i].inputs@.len() && nodes[i].inputs@[j] == o;
    assert(o.index < spells[idx].num_outputs);
    assert(sigs(spells)[idx] == sig_of(spells[idx]));
    assert(spells[idx].wf());
}

/// When every input's spell is memoized, evaluating the inputs replays
/// the memoized values.
proof fn lemma_eval_inputs_cached(
    nodes: Seq<Node>,
    spells: Seq<Spell>,
    rank: Seq<nat>,
    s: StateSnap,
    n: int,
    j: int,
)
    requires
        links_ranked(nodes, rank),
        nodes_bounded(nodes, spells.len()),
        slots_wf(nodes, spells),
        caches_ok(nodes, spells, rank, s),
        forall|k: int| 0 <= k < spells.len() ==> (#[trigger] spells[k]).wf(),
        0 <= n < nodes.len(),
        0 <= j <= nodes[n].inputs@.len(),
        forall|jj: int|
            0 <= jj < nodes[n].inputs@.len() ==> spells[nodes[(
            #[trigger] nodes[n].inputs@[jj]).node as int].spell_idx as int].outputs is Some,
    ensures
        eval_inputs(nodes, sigs(spells), s, rank, n, j) == Ok::<Seq<Value>, CircuitError>(
            gather_cached(nodes, spells, n).subrange(j, nodes[n].inputs@.len() as int),
        ),
    decreases nodes[n].inputs@.len() - j,
{
    let len = nodes[n].inputs@.len() as int;
    if j >= len {
        assert(gather_cached(nodes, spells, n).subrange(j, len) =~= Seq::<Value>::empty());
    } else {
        let o = nodes[n].inputs@[j];
        lemma_eval_at_cached(nodes, spells, rank, s, o);
        lemma_eval_inputs_cached(nodes, spells, rank, s, n, j + 1);
        assert(seq![gather_cached(nodes, spells, n)[j]] + gather_cached(
            nodes,
            spells,
            n,
        ).subrange(j + 1, len) =~= gather_cached(nodes, spells, n).subrange(j, len));
    }
}

/// The view of a step's returned effects.
pub open spec fn cast_result_view(r: Option<Vec<(u64, Effect)>>) -> Option<Seq<(u64, Effect)>> {
    match r {
        None => None,
        Some(es) => Some(es@),
    }
}

/// What one stepwise evaluation attempt on the subtree rooted at node `n`
/// does to the spell list: nothing when the subtree is quiet; otherwise
/// exactly the spell of the node named by `next_cast` is memoized, and
/// that node's effects are returned.
pub open spec fn cast_post(
    nodes: Seq<Node>,
    pre_spells: Seq<Spell>,
    post_spells: Seq<Spell>,
    rank: Seq<nat>,
    s: StateSnap,
    n: int,
    r: Option<Seq<(u64, Effect)>>,
) -> bool {
    match next_cast(nodes, pre_spells, rank, n) {
        None => post_spells == pre_spells && r is None,
        Some(m) => {
            let idx = nodes[m].spell_idx as int;
            let k = pre_spells[idx].kind;
            let ins = gather_cached(nodes, pre_spells, m);
            &&& post_spells.len() == pre_spells.len()
            &&& forall|q: int| 0 <= q < pre_spells.len() && q != idx ==> post_spells[q]
                == pre_spells[q]
            &&& sig_of(post_spells[idx]) == sig_of(pre_spells[idx])
            &&& post_spells[idx].outputs matches Some(os) && os@ == routine_outputs(k, s, ins)
            &&& r matches Some(es) && es == routine_effects(k, s, ins)
        },
    }
}

/// The routine about to run, if any, really receives a target where it
/// consumes one.
pub open spec fn cast_pre_ok(c: SpellCircuit, s: StateSnap) -> bool {
    match next_cast(c.nodes@, c.spells@, c.rank@, c.output.node as int) {
        None => true,
        Some(m) => routine_pre(
            c.spells@[c.nodes@[m].spell_idx as int].kind,
            gather_cached(c.nodes@, c.spells@, m),
        ),
    }
}

impl SpellCircuit {
    /// Full well-formedness: on top of the structural floor, every input
    /// pointer addresses a declared slot and every node's input count
    /// matches its spell's arity.  Stepwise evaluation reads memoized
    /// cells unchecked, so it asks for all of this.
    pub open spec fn wf(self) -> bool {
        &&& self.bounds_wf()
        &&& slots_wf(self.nodes@, self.spells@)
        &&& arity_wf(self.nodes@, self.spells@)
    }

    /// The node the next stepwise evaluation attempt would fire; `None`
    /// once the output node's spell is memoized.
    pub fn next_to_cast(&self) -> (r: Option<usize>)
        requires
            self.bounds_wf(),
        ensures
            match r {
                None => next_cast(self.nodes@, self.spells@, self.rank@, self.output.node as int)
                    is None,
                Some(m) => next_cast(self.nodes@, self.spells@, self.rank@, self.output.node as int)
                    == Some(m as int),
            },
    {
        self.next_cast_from(self.output.node)
    }

    #[verifier::loop_isolation(false)]
    fn next_cast_from(&self, n: usize) -> (r: Option<usize>)
        requires
            self.bounds_wf(),
            n < self.nodes@.len(),
        ensures
            match r {
                None => next_cast(self.nodes@, self.spells@, self.rank@, n as int) is None,
                Some(m) => next_cast(self.nodes@, self.spells@, self.rank@, n as int) == Some(
                    m as int,
                ),
            },
        decreases self.rank@[n as int],
    {
        let spell_idx = self.nodes[n].spell_idx;
        if self.spells[spell_idx].outputs.is_some() {
            return None;
        }
        let num_ins = self.nodes[n].inputs.len();
        let mut j: usize = 0;
        while j < num_ins
            invariant
                j <= num_ins,
                num_ins == self.nodes@[n as int].inputs@.len(),
                forall|jj: int|
                    0 <= jj < j ==> next_cast(
                        self.nodes@,
                        self.spells@,
                        self.rank@,
                        (#[trigger] self.nodes@[n as int].inputs@[jj]).node as int,
                    ) is None,
            decreases num_ins - j,
        {
            let ov = self.nodes[n].inputs[j];
            proof {
                assert(ov == self.nodes@[n as int].inputs@[j as int]);
                assert(self.rank@[ov.node as int] < self.rank@[n as int]);
                lemma_next_cast_prefix(self.nodes@, self.spells@, self.rank@, n as int, j as int);
            }
            let r = self.next_cast_from(ov.node);
            if r.is_some() {
                return r;
            }
            j = j + 1;
        }
        proof {
            lemma_next_cast_prefix(self.nodes@, self.spells@, self.rank@, n as int, num_ins as int);
        }
        Some(n)
    }

    /// Whether the node about to fire, if any, really receives a target
    /// where its routine consumes one: the run-time check behind
    /// `execute_next_spell`'s precondition.
    pub fn can_cast(&self, s: &State) -> (b: bool)
        requires
            self.wf(),
        ensures
            b == cast_pre_ok(*self, s@),
    {
        match self.next_to_cast() {
            None => true,
            Some(m) => {
                proof {
                    lemma_next_cast_ready(
                        self.nodes@,
                        self.spells@,
                        self.rank@,
                        self.output.node as int,
                    );
                }
                let ghost ins = gather_cached(self.nodes@, self.spells@, m as int);
                match self.spells[self.nodes[m].spell_idx].kind {
                    Routine::Player => true,
                    Routine::Punch | Routine::MoveTo42 => {
                        let ov = self.nodes[m].inputs[0];
                        proof {
                            assert(ov == self.nodes@[m as int].inputs@[0]);
                            assert(ov.index < self.spells@[self.nodes@[ov.node as int].spell_idx as int].num_outputs);
                        }
                        let src_idx = self.nodes[ov.node].spell_idx;
                        let v = match &self.spells[src_idx].outputs {
                            Some(os) => os[ov.index],
                            None => vstd::pervasive::unreached(),
                        };
                        proof {
                            assert(v == ins[0]);
                        }
                        matches!(v, Value::Target(_))
                    },
                }
            },
        }
    }

    /// Fire the first unevaluated node found depth-first, left to right,
    /// under the designated output node, memoize its spell's outputs, and
    /// hand back its per-target effects; `None` when no node fired, in
    /// particular once the output node's spell is memoized.
    pub fn execute_next_spell(&mut self, s: &State) -> (r: Option<Vec<(u64, Effect)>>)
        requires
            old(self).wf(),
            old(self).cache_consistent(s@),
            cast_pre_ok(*old(self), s@),
        ensures
            final(self).wf(),
            final(self).cache_consistent(s@),
            final(self).nodes@ == old(self).nodes@,
            final(self).output == old(self).output,
            final(self).rank@ == old(self).rank@,
            cast_post(
                old(self).nodes@,
                old(self).spells@,
                final(self).spells@,
                old(self).rank@,
                s@,
                old(self).output.node as int,
                cast_result_view(r),
            ),
            r is None ==> *final(self) == *old(self),
    {
        let n = self.output.node;
        self.execute_next_spell_rec(s, n)
    }

    #[verifier::loop_isolation(false)]
    fn execute_next_spell_rec(&mut self, s: &State, n: usize) -> (r: Option<Vec<(u64, Effect)>>)
        requires
            old(self).wf(),
            old(self).cache_consistent(s@),
            n < old(self).nodes@.len(),
            next_cast(old(self).nodes@, old(self).spells@, old(self).rank@, n as int) matches Some(
                m,
            ) ==> routine_pre(
                old(self).spells@[old(self).nodes@[m].spell_idx as int].kind,
                gather_cached(old(self).nodes@, old(self).spells@, m),
            ),
        ensures
            final(self).wf(),
            final(self).cache_consistent(s@),
            final(self).nodes@ == old(self).nodes@,
            final(self).output == old(self).output,
            final(self).rank@ == old(self).rank@,
            cast_post(
                old(self).nodes@,
                old(self).spells@,
                final(self).spells@,
                old(self).rank@,
                s@,
                n as int,
                cast_result_view(r),
            ),
            r is None ==> *final(self) == *old(self),
        decreases old(self).rank@[n as int],
    {
        let spell_idx = self.nodes[n].spell_idx;
        if self.spells[spell_idx].outputs.is_some() {
            return None;
        }
        let ghost pre = *self;
        let num_ins = self.nodes[n].inputs.len();
        let mut j: usize = 0;
        while j < num_ins
            invariant
                *self == pre,
                j <= num_ins,
                num_ins == pre.nodes@[n as int].inputs@.len(),
                forall|jj: int|
                    0 <= jj < j ==> next_cast(
                        pre.nodes@,
                        pre.spells@,
                        pre.rank@,
                        (#[trigger] pre.nodes@[n as int].inputs@[jj]).node as int,
                    ) is None,
            decreases num_ins - j,
        {
            let ov = self.nodes[n].inputs[j];
            proof {
                assert(ov == pre.nodes@[n as int].inputs@[j as int]);
                assert(pre.rank@[ov.node as int] < pre.rank@[n as int]);
                lemma_next_cast_prefix(pre.nodes@, pre.spells@, pre.rank@, n as int, j as int);
                assert(next_cast(pre.nodes@, pre.spells@, pre.rank@, ov.node as int) matches Some(
                    q,
                ) ==> next_cast(pre.nodes@, pre.spells@, pre.rank@, n as int) == Some(q));
            }
            let r = self.execute_next_spell_rec(s, ov.node);
            if r.is_some() {
                return r;
            }
            j = j + 1;
        }
        proof {
            lemma_next_cast_prefix(pre.nodes@, pre.spells@, pre.rank@, n as int, num_ins as int);
            assert(next_cast_inputs(pre.nodes@, pre.spells@, pre.rank@, n as int, 0) is None);
            assert(next_cast(pre.nodes@, pre.spells@, pre.rank@, n as int) == Some(n as int));
            lemma_next_cast_ready(pre.nodes@, pre.spells@, pre.rank@, n as int);
        }
        let mut vals: Vec<Value> = Vec::new();
        let mut k: usize = 0;
        while k < num_ins
            invariant
                *self == pre,
                k <= num_ins,
                num_ins == pre.nodes@[n as int].inputs@.len(),
                vals@.len() == k,
                forall|i: int|
                    0 <= i < k ==> vals@[i] == gather_cached(pre.nodes@, pre.spells@, n as int)[i],
                forall|jj: int|
                    0 <= jj < pre.nodes@[n as int].inputs@.len() ==> pre.spells@[pre.nodes@[(
                    #[trigger] pre.nodes@[n as int].inputs@[jj]).node as int].spell_idx as int].outputs
                        is Some,
            decreases num_ins - k,
        {
            let ov = self.nodes[n].inputs[k];
            proof {
                assert(ov == pre.nodes@[n as int].inputs@[k as int]);
                assert(ov.index
                    < pre.spells@[pre.nodes@[ov.node as int].spell_idx as int].num_outputs);
            }
            let src_idx = self.nodes[ov.node].spell_idx;
            let val = match &self.spells[src_idx].outputs {
                Some(os) => os[ov.index],
                None => vstd::pervasive::unreached(),
            };
            vals.push(val);
            k = k + 1;
        }
        proof {
            assert(vals@ =~= gather_cached(pre.nodes@, pre.spells@, n as int));
        }
        let kind = self.spells[spell_idx].kind;
        let num_inputs_decl = self.spells[spell_idx].num_inputs;
        let num_outputs_decl = self.spells[spell_idx].num_outputs;
        let effects = routine_apply_effects(kind, s, &vals);
        let outs = routine_apply_outputs(kind, s, &vals);
        let new_spell = Spell {
            num_inputs: num_inputs_decl,
            num_outputs: num_outputs_decl,
            outputs: Some(outs),
            kind,
        };
        self.spells.set(spell_idx, new_spell);
        proof {
            assert(sigs(self.spells@) =~= sigs(pre.spells@));
            lemma_eval_inputs_cached(pre.nodes@, pre.spells@, pre.rank@, s@, n as int, 0);
            assert(gather_cached(pre.nodes@, pre.spells@, n as int).subrange(
                0,
                pre.nodes@[n as int].inputs@.len() as int,
            ) =~= gather_cached(pre.nodes@, pre.spells@, n as int));
            assert forall|q: int| 0 <= q < self.nodes@.len() implies {
                let nd = #[trigger] self.nodes@[q];
                self.spells@[nd.spell_idx as int].outputs matches Some(os) ==> {
                    let rr = eval_inputs(self.nodes@, sigs(self.spells@), s@, self.rank@, q, 0);
                    &&& rr is Ok
                    &&& rr->Ok_0.len() >= self.spells@[nd.spell_idx as int].num_inputs
                    &&& os@ == routine_outputs(self.spells@[nd.spell_idx as int].kind, s@, rr->Ok_0)
                }
            } by {
                let nd = self.nodes@[q];
                if nd.spell_idx == spell_idx {
                    assert(q == n as int);
                    assert(eval_inputs(self.nodes@, sigs(self.spells@), s@, self.rank@, q, 0)
                        == eval_inputs(pre.nodes@, sigs(pre.spells@), s@, pre.rank@, q, 0));
                } else {
                    assert(self.spells@[nd.spell_idx as int] == pre.spells@[nd.spell_idx as int]);
                    assert(eval_inputs(self.nodes@, sigs(self.spells@), s@, self.rank@, q, 0)
                        == eval_inputs(pre.nodes@, sigs(pre.spells@), s@, pre.rank@, q, 0));
                }
            }
        }
        Some(effects)
    }
}

/// Run a routine for its per-target effects.
fn routine_apply_effects(kind: Routine, s: &State, vals: &Vec<Value>) -> (r: Vec<(u64, Effect)>)
    requires
        routine_pre(kind, vals@),
    ensures
        r@ == routine_effects(kind, s@, vals@),
{
    match kind {
        Routine::Player => {
            let r: Vec<(u64, Effect)> = Vec::new();
            proof {
                assert(r@ =~= routine_effects(kind, s@, vals@));
            }
            r
        },
        Routine::Punch => {
            let e = match vals[0] {
                Value::Target(e) => e,
                _ => vstd::pervasive::unreached(),
            };
            let r = vec![(e, Effect::Damage(Damage::new(69)))];
            proof {
                assert(r@ =~= routine_effects(kind, s@, vals@));
            }
            r
        },
        Routine::MoveTo42 => {
            let e = match vals[0] {
                Value::Target(e) => e,
                _ => vstd::pervasive::unreached(),
            };
            let r = vec![(e, Effect::Move(Move::new(Position { x: 42, y: 42 })))];
            proof {
                assert(r@ =~= routine_effects(kind, s@, vals@));
            }
            r
        },
    }
}

/// The sample circuit: a player-reference node feeding a node that orders
/// its target to walk to (42, 42), with the walk node's first output as
/// the designated result.
pub fn example_circuit() -> (c: SpellCircuit)
    ensures
        c.wf(),
        forall|s: StateSnap| c.cache_consistent(s),
        c.nodes@.len() == 2,
        c.spells@.len() == 2,
        c.spells@[0].kind == Routine::Player,
        c.spells@[1].kind == Routine::MoveTo42,
        c.spells@[0].outputs is None,
        c.spells@[1].outputs is None,
        c.nodes@[0].spell_idx == 0,
        c.nodes@[1].spell_idx == 1,
        c.nodes@[0].inputs@.len() == 0,
        c.nodes@[1].inputs@ == seq![Output { node: 0, index: 0 }],
        c.output == (Output { node: 1, index: 0 }),
{
    let player = Spell::new(0, 1, Routine::Player);
    let punch = Spell::new(1, 1, Routine::MoveTo42);
    let mut spells: Vec<Spell> = Vec::new();
    spells.push(player);
    spells.push(punch);
    let player_node = Node { inputs: Vec::new(), spell_idx: 0 };
    let mut punch_inputs: Vec<Output> = Vec::new();
    punch_inputs.push(Output::new(0, 0));
    let punch_node = Node { inputs: punch_inputs, spell_idx: 1 };
    let mut nodes: Vec<Node> = Vec::new();
    nodes.push(player_node);
    nodes.push(punch_node);
    let output = Output::new(1, 0);
    let ghost rank: Seq<nat> = seq![0nat, 1nat];
    proof {
        assert(nodes@[1].inputs@ =~= seq![Output { node: 0, index: 0 }]);
        assert(links_ranked(nodes@, rank));
    }
    SpellCircuit { nodes, output, spells, rank: Ghost(rank) }
}

} // verus!
