use vstd::prelude::*;
use vstd::pervasive::VecAdditionalExecFns;
use crate::spell::Spell;
use crate::spellcircuit::{
    acyclic, arities_wf, copy_vec, inputs_wf, output_ok, rank_ok, CircuitNode, Output, SpellCircuit,
};

verus! {

/// Where a wire may be plugged in: one node's input slot, or the circuit's
/// designated result.
#[derive(Clone, Copy, Debug, PartialEq, Eq, Structural)]
pub enum SpellInput {
    Spell(Output),
    CircuitOutput,
}

impl SpellInput {
    pub fn new(node: usize, index: usize) -> (s: SpellInput)
        ensures
            s == SpellInput::Spell(Output { node, index }),
    {
        SpellInput::Spell(Output::new(node, index))
    }
}

/// One node under construction: its input slots, unset until wired, and
/// the spell it will run.
pub struct BuilderNode {
    pub inputs: Vec<Option<Output>>,
    pub spell: Spell,
}

/// The mutable pre-compilation graph: input slots are filled one wire at a
/// time, and `compile` freezes the structure once everything is set.
pub struct CircuitBuilder {
    pub nodes: Vec<BuilderNode>,
    pub output: Option<Output>,
}

impl CircuitBuilder {
    /// `o` addresses a declared output slot of an existing node.
    pub open spec fn src_ok(self, o: Output) -> bool {
        &&& o.node < self.nodes@.len()
        &&& o.index < self.nodes@[o.node as int].spell.num_outputs
    }

    /// Every spell arity matches its slot count, and every wire already
    /// placed, including the designated result, is in range.
    pub open spec fn wf(self) -> bool {
        &&& forall|i: int|
            0 <= i < self.nodes@.len() ==> {
                let nd = #[trigger] self.nodes@[i];
                nd.spell.wf() && nd.inputs@.len() == nd.spell.num_inputs
            }
        &&& forall|i: int, j: int|
            0 <= i < self.nodes@.len() && 0 <= j < self.nodes@[i].inputs@.len() ==> ((
            #[trigger] self.nodes@[i].inputs@[j]) matches Some(o) ==> self.src_ok(o))
        &&& (self.output matches Some(o) ==> self.src_ok(o))
    }

    /// Every input slot is wired and the result pointer is set.
    pub open spec fn complete(self) -> bool {
        &&& self.output is Some
        &&& forall|i: int, j: int|
            0 <= i < self.nodes@.len() && 0 <= j < self.nodes@[i].inputs@.len() ==> (
            #[trigger] self.nodes@[i].inputs@[j]) is Some
    }

    /// `rank` witnesses that the wires placed so far form no cycle.
    pub open spec fn brank_ok(self, rank: Seq<nat>) -> bool {
        &&& rank.len() == self.nodes@.len()
        &&& forall|i: int, j: int|
            0 <= i < self.nodes@.len() && 0 <= j < self.nodes@[i].inputs@.len() ==> ((
            #[trigger] self.nodes@[i].inputs@[j]) matches Some(o) ==> rank[o.node as int]
                < rank[i])
    }

    /// The wiring admits a bounded rank witness, so it has no cycle.
    pub open spec fn acyclic(self) -> bool {
        exists|rank: Seq<nat>|
            self.brank_ok(rank) && (forall|i: int|
                0 <= i < self.nodes@.len() ==> rank[i] < self.nodes@.len())
    }

    /// One node per spell, every input slot unset, no result designated.
    #[verifier::loop_isolation(false)]
    pub fn from_spells(spells: Vec<Spell>) -> (b: CircuitBuilder)
        requires
            forall|i: int| 0 <= i < spells@.len() ==> (#[trigger] spells@[i]).wf(),
        ensures
            b.wf(),
            b.output is None,
            b.nodes@.len() == spells@.len(),
            forall|i: int| 0 <= i < spells@.len() ==> (#[trigger] b.nodes@[i]).spell == spells@[i],
            forall|i: int, j: int|
                0 <= i < b.nodes@.len() && 0 <= j < b.nodes@[i].inputs@.len() ==> (
                #[trigger] b.nodes@[i].inputs@[j]) is None,
    {
        let mut nodes: Vec<BuilderNode> = Vec::new();
        let mut i: usize = 0;
        while i < spells.len()
            invariant
                i <= spells@.len(),
                nodes@.len() == i,
                forall|k: int|
                    0 <= k < i ==> {
                        let nd = #[trigger] nodes@[k];
                        &&& nd.spell == spells@[k]
                        &&& nd.inputs@.len() == nd.spell.num_inputs
                        &&& forall|j: int| 0 <= j < nd.inputs@.len() ==> nd.inputs@[j] is None
                    },
            decreases spells@.len() - i,
        {
            let spell = spells[i];
            let mut slots: Vec<Option<Output>> = Vec::new();
            let mut j: usize = 0;
            while j < spell.num_inputs
                invariant
                    j <= spell.num_inputs,
                    slots@.len() == j,
                    forall|jj: int| 0 <= jj < j ==> slots@[jj] is None,
                decreases spell.num_inputs - j,
            {
                slots.push(None);
                j = j + 1;
            }
            nodes.push(BuilderNode { inputs: slots, spell });
            i = i + 1;
        }
        CircuitBuilder { nodes, output: None }
    }

    /// Range-check a plug point before connecting a wire into it.
    pub fn check_input(&self, input: &SpellInput) -> (b: bool)
        ensures
            b == self.input_ok(*input),
    {
        match input {
            SpellInput::Spell(o) => {
                o.node < self.nodes.len() && o.index < self.nodes[o.node].spell.num_inputs
            },
            SpellInput::CircuitOutput => true,
        }
    }

    /// `input` names an existing input slot, or the circuit result.
    pub open spec fn input_ok(self, input: SpellInput) -> bool {
        match input {
            SpellInput::Spell(o) => {
                &&& o.node < self.nodes@.len()
                &&& o.index < self.nodes@[o.node as int].spell.num_inputs
            },
            SpellInput::CircuitOutput => true,
        }
    }

    /// Range-check an output pointer before connecting a wire out of it.
    pub fn check_output(&self, output: &Output) -> (b: bool)
        ensures
            b == self.src_ok(*output),
    {
        output.node < self.nodes.len()
            && output.index < self.nodes[output.node].spell.num_outputs
    }

    /// Plug the output slot `output` into `input`: either one node's input
    /// slot, or the circuit's designated result.  Wiring with an
    /// out-of-range pointer is a graph-authoring error; the checks above
    /// let a caller rule it out beforehand.
    pub fn connect_io(&mut self, input: SpellInput, output: Output)
        requires
            old(self).wf(),
            old(self).input_ok(input),
            old(self).src_ok(output),
        ensures
            final(self).wf(),
            final(self).nodes@.len() == old(self).nodes@.len(),
            match input {
                SpellInput::Spell(ip) => {
                    &&& final(self).output == old(self).output
                    &&& forall|i: int|
                        0 <= i < old(self).nodes@.len() && i != ip.node as int
                            ==> final(self).nodes@[i] == old(self).nodes@[i]
                    &&& final(self).nodes@[ip.node as int].spell == old(self).nodes@[ip.node as int].spell
                    &&& final(self).nodes@[ip.node as int].inputs@ == old(self).nodes@[ip.node as int].inputs@.update(
                        ip.index as int,
                        Some(output),
                    )
                },
                SpellInput::CircuitOutput => {
                    &&& final(self).nodes@ == old(self).nodes@
                    &&& final(self).output == Some(output)
                },
            },
    {
        let ghost pre = *self;
        match input {
            SpellInput::Spell(ip) => {
                let mut slots = copy_vec(&self.nodes[ip.node].inputs);
                let spell = self.nodes[ip.node].spell;
                slots.set(ip.index, Some(output));
                self.nodes.set(ip.node, BuilderNode { inputs: slots, spell });
                proof {
                    assert forall|i: int, j: int|
                        0 <= i < self.nodes@.len() && 0 <= j < self.nodes@[i].inputs@.len()
                            implies ((#[trigger] self.nodes@[i].inputs@[j]) matches Some(o)
                            ==> self.src_ok(o)) by {
                        assert(self.nodes@[i].spell == pre.nodes@[i].spell);
                        if i != ip.node as int {
                            assert(self.nodes@[i] == pre.nodes@[i]);
                        }
                        match self.nodes@[i].inputs@[j] {
                            Some(o) => {
                                if i == ip.node as int && j == ip.index as int {
                                    assert(o == output);
                                } else {
                                    assert(self.nodes@[i].inputs@[j] == pre.nodes@[i].inputs@[j]);
                                }
                                assert(self.nodes@[o.node as int].spell
                                    == pre.nodes@[o.node as int].spell);
                            },
                            None => {},
                        }
                    }
                }
            },
            SpellInput::CircuitOutput => {
                self.output = Some(output);
                proof {
                    assert forall|i: int, j: int|
                        0 <= i < self.nodes@.len() && 0 <= j < self.nodes@[i].inputs@.len()
                            implies ((#[trigger] self.nodes@[i].inputs@[j]) matches Some(o)
                            ==> self.src_ok(o)) by {
                        assert(self.nodes@[i].inputs@[j] == pre.nodes@[i].inputs@[j]);
                    }
                }
            },
        }
    }
}


/// Input slot `j` of node `i` points at a node already ranked below `bound`.
spec fn input_ranked_below(
    nodes: Seq<CircuitNode>,
    rk: Seq<Option<usize>>,
    i: int,
    j: int,
    bound: int,
) -> bool {
    let o = nodes[i].inputs@[j];
    rk[o.node as int] matches Some(w) && w < bound
}

/// Partial rank assignments only ever point downward: a ranked node's
/// inputs are ranked strictly below it.
spec fn ranks_sound(nodes: Seq<CircuitNode>, rk: Seq<Option<usize>>) -> bool {
    forall|ii: int, j: int|
        0 <= ii < nodes.len() && 0 <= j < nodes[ii].inputs@.len() && rk[ii] is Some
            ==> #[trigger] input_ranked_below(nodes, rk, ii, j, rk[ii]->Some_0 as int)
}

/// Assigned ranks never exceed any valid rank witness.
spec fn ranks_minimal(nodes: Seq<CircuitNode>, rk: Seq<Option<usize>>) -> bool {
    forall|rho: Seq<nat>, ii: int|
        (#[trigger] rank_ok(nodes, rho) && 0 <= ii < nodes.len() && (#[trigger] rk[ii]) is Some)
            ==> rk[ii]->Some_0 <= rho[ii]
}

/// Every node that any valid rank witness places below `bound` is assigned.
spec fn ranks_complete(nodes: Seq<CircuitNode>, rk: Seq<Option<usize>>, bound: int) -> bool {
    forall|rho: Seq<nat>, ii: int|
        #[trigger] rank_ok(nodes, rho) && 0 <= ii < nodes.len() && (#[trigger] rho[ii]) < bound
            ==> rk[ii] is Some
}

/// All assigned ranks lie below `bound`.
spec fn ranks_below(rk: Seq<Option<usize>>, bound: int) -> bool {
    forall|ii: int| 0 <= ii < rk.len() ==> ((#[trigger] rk[ii]) matches Some(w) ==> w < bound)
}

impl CircuitBuilder {
    /// Freeze the builder into an executable circuit.  Compilation yields
    /// nothing while any input slot or the result pointer is unset, and
    /// nothing for cyclic wiring, which the evaluator could not terminate
    /// on; a complete, acyclic builder always compiles, into a circuit
    /// with one unevaluated node per builder node and the same wiring.
    #[verifier::loop_isolation(false)]
    pub fn compile(&self) -> (r: Option<SpellCircuit>)
        requires
            self.wf(),
        ensures
            r is Some <==> self.complete() && self.acyclic(),
            r matches Some(c) ==> {
                &&& c.wf()
                &&& !c.complete()
                &&& c.output == self.output->Some_0
                &&& c.nodes@.len() == self.nodes@.len()
                &&& forall|i: int|
                    0 <= i < self.nodes@.len() ==> {
                        &&& (#[trigger] c.nodes@[i]).spell == self.nodes@[i].spell
                        &&& c.nodes@[i].outputs is None
                        &&& c.nodes@[i].inputs@.len() == self.nodes@[i].inputs@.len()
                        &&& forall|j: int|
                            0 <= j < self.nodes@[i].inputs@.len() ==> Some(
                                #[trigger] c.nodes@[i].inputs@[j],
                            ) == self.nodes@[i].inputs@[j]
                    }
            },
    {
        let output = match &self.output {
            Some(o) => *o,
            None => {
                return None;
            },
        };
        let mut cnodes: Vec<CircuitNode> = Vec::new();
        let mut i: usize = 0;
        while i < self.nodes.len()
            invariant
                i <= self.nodes@.len(),
                cnodes@.len() == i,
                forall|k: int|
                    0 <= k < i ==> {
                        &&& (#[trigger] cnodes@[k]).spell == self.nodes@[k].spell
                        &&& cnodes@[k].outputs is None
                        &&& cnodes@[k].inputs@.len() == self.nodes@[k].inputs@.len()
                        &&& forall|j: int|
                            0 <= j < self.nodes@[k].inputs@.len() ==> Some(
                                #[trigger] cnodes@[k].inputs@[j],
                            ) == self.nodes@[k].inputs@[j]
                    },
            decreases self.nodes@.len() - i,
        {
            let bn_len = self.nodes[i].inputs.len();
            let mut ins: Vec<Output> = Vec::new();
            let mut j: usize = 0;
            while j < bn_len
                invariant
                    j <= bn_len,
                    ins@.len() == j,
                    bn_len == self.nodes@[i as int].inputs@.len(),
                    i < self.nodes@.len(),
                    forall|jj: int|
                        0 <= jj < j ==> Some(#[trigger] ins@[jj])
                            == self.nodes@[i as int].inputs@[jj],
                decreases bn_len - j,
            {
                match self.nodes[i].inputs[j] {
                    Some(o) => ins.push(o),
                    None => {
                        proof {
                            assert(self.nodes@[i as int].inputs@[j as int] is None);
                            assert(!self.complete());
                        }
                        return None;
                    },
                }
                j = j + 1;
            }
            let spell = self.nodes[i].spell;
            cnodes.push(CircuitNode { inputs: ins, outputs: None, spell });
            i = i + 1;
        }
        proof {
            assert forall|i2: int, j: int|
                0 <= i2 < self.nodes@.len() && 0 <= j < self.nodes@[i2].inputs@.len() implies (
            #[trigger] self.nodes@[i2].inputs@[j]) is Some by {
                assert(Some(cnodes@[i2].inputs@[j]) == self.nodes@[i2].inputs@[j]);
            }
            assert(self.complete());
            assert(inputs_wf(cnodes@)) by {
                assert forall|n: int, j: int|
                    0 <= n < cnodes@.len() && 0 <= j < cnodes@[n].inputs@.len() implies {
                    let o = #[trigger] cnodes@[n].inputs@[j];
                    &&& o.node < cnodes@.len()
                    &&& o.index < cnodes@[o.node as int].spell.num_outputs
                } by {
                    let o = cnodes@[n].inputs@[j];
                    assert(Some(o) == self.nodes@[n].inputs@[j]);
                    assert(self.src_ok(o));
                }
            }
            assert(arities_wf(cnodes@));
            assert(output_ok(cnodes@, output));
        }
        // Assign each node a rank in rounds: a node is ranked as soon as
        // every input of it is ranked in an earlier round.  A cycle leaves
        // its nodes unranked forever.
        let n_count = cnodes.len();
        let mut rk: Vec<Option<usize>> = Vec::new();
        let mut z: usize = 0;
        while z < n_count
            invariant
                z <= n_count,
                rk@.len() == z,
                forall|ii: int| 0 <= ii < z ==> (#[trigger] rk@[ii]) is None,
            decreases n_count - z,
        {
            rk.push(None);
            z = z + 1;
        }
        let mut round: usize = 0;
        while round < n_count
            invariant
                round <= n_count,
                rk@.len() == n_count,
                ranks_below(rk@, round as int),
                ranks_sound(cnodes@, rk@),
                ranks_minimal(cnodes@, rk@),
                ranks_complete(cnodes@, rk@, round as int),
            decreases n_count - round,
        {
            let mut i: usize = 0;
            while i < n_count
                invariant
                    i <= n_count,
                    rk@.len() == n_count,
                    ranks_below(rk@, round as int + 1),
                    ranks_sound(cnodes@, rk@),
                    ranks_minimal(cnodes@, rk@),
                    ranks_complete(cnodes@, rk@, round as int),
                    forall|rho: Seq<nat>, ii: int|
                        #[trigger] rank_ok(cnodes@, rho) && 0 <= ii < i && (#[trigger] rho[ii])
                            <= round ==> rk@[ii] is Some,
                decreases n_count - i,
            {
                if rk[i].is_none() {
                    let num_ins = cnodes[i].inputs.len();
                    let mut ok = true;
                    let mut j: usize = 0;
                    while j < num_ins
                        invariant
                            j <= num_ins,
                            i < n_count,
                            rk@.len() == n_count,
                            num_ins == cnodes@[i as int].inputs@.len(),
                            ok == (forall|jj: int|
                                0 <= jj < j ==> #[trigger] input_ranked_below(
                                    cnodes@,
                                    rk@,
                                    i as int,
                                    jj,
                                    round as int,
                                )),
                        decreases num_ins - j,
                    {
                        let o = cnodes[i].inputs[j];
                        let good = match rk[o.node] {
                            Some(w) => w < round,
                            None => false,
                        };
                        proof {
                            assert(good == input_ranked_below(
                                cnodes@,
                                rk@,
                                i as int,
                                j as int,
                                round as int,
                            ));
                        }
                        ok = ok && good;
                        j = j + 1;
                    }
                    if ok {
                        let ghost old_rk = rk@;
                        rk.set(i, Some(round));
                        proof {
                            assert forall|ii: int, j: int|
                                0 <= ii < cnodes@.len() && 0 <= j < cnodes@[ii].inputs@.len()
                                    && rk@[ii] is Some implies #[trigger] input_ranked_below(
                                cnodes@,
                                rk@,
                                ii,
                                j,
                                rk@[ii]->Some_0 as int,
                            ) by {
                                let o = cnodes@[ii].inputs@[j];
                                if ii == i as int {
                                    assert(input_ranked_below(
                                        cnodes@,
                                        old_rk,
                                        ii,
                                        j,
                                        round as int,
                                    ));
                                    assert(o.node != i as int);
                                } else {
                                    assert(input_ranked_below(
                                        cnodes@,
                                        old_rk,
                                        ii,
                                        j,
                                        old_rk[ii]->Some_0 as int,
                                    ));
                                    assert(o.node != i as int);
                                }
                            }
                            assert forall|rho: Seq<nat>, ii: int|
                                (#[trigger] rank_ok(cnodes@, rho) && 0 <= ii < cnodes@.len() && (
                            #[trigger] rk@[ii]) is Some) implies rk@[ii]->Some_0 <= rho[ii] by {
                                if ii == i as int {
                                    if rho[ii] < round {
                                        assert(old_rk[ii] is Some);
                                    }
                                }
                            }
                        }
                    } else {
                        proof {
                            assert forall|rho: Seq<nat>, ii: int|
                                #[trigger] rank_ok(cnodes@, rho) && 0 <= ii < i as int + 1 && (
                            #[trigger] rho[ii]) <= round implies rk@[ii] is Some by {
                                if ii == i as int && rk@[ii] is None {
                                    assert(exists|jj: int|
                                        0 <= jj < num_ins && !input_ranked_below(
                                            cnodes@,
                                            rk@,
                                            i as int,
                                            jj,
                                            round as int,
                                        ));
                                    let jj = choose|jj: int|
                                        0 <= jj < num_ins && !input_ranked_below(
                                            cnodes@,
                                            rk@,
                                            i as int,
                                            jj,
                                            round as int,
                                        );
                                    let o = cnodes@[i as int].inputs@[jj];
                                    assert(rho[o.node as int] < rho[ii]);
                                    assert(rk@[o.node as int] is Some);
                                    assert(rk@[o.node as int]->Some_0 <= rho[o.node as int]);
                                }
                            }
                        }
                    }
                }
                i = i + 1;
            }
            round = round + 1;
        }
        let mut all_i: usize = 0;
        while all_i < n_count
            invariant
                all_i <= n_count,
                rk@.len() == n_count,
                forall|ii: int| 0 <= ii < all_i ==> (#[trigger] rk@[ii]) is Some,
            decreases n_count - all_i,
        {
            if rk[all_i].is_none() {
                proof {
                    // any bounded rank witness would have ranked this node
                    assert forall|rho: Seq<nat>|
                        !(self.brank_ok(rho) && (forall|ii: int|
                            0 <= ii < self.nodes@.len() ==> rho[ii] < self.nodes@.len())) by {
                        if self.brank_ok(rho) && (forall|ii: int|
                            0 <= ii < self.nodes@.len() ==> rho[ii] < self.nodes@.len()) {
                            assert(rank_ok(cnodes@, rho)) by {
                                assert forall|n: int, j: int|
                                    0 <= n < cnodes@.len() && 0 <= j
                                        < cnodes@[n].inputs@.len() implies rho[(
                                #[trigger] cnodes@[n].inputs@[j]).node as int] < rho[n] by {
                                    let o = cnodes@[n].inputs@[j];
                                    assert(Some(o) == self.nodes@[n].inputs@[j]);
                                }
                            }
                            assert(rho[all_i as int] < n_count);
                            assert(rk@[all_i as int] is Some);
                        }
                    }
                    assert(!self.acyclic());
                }
                return None;
            }
            all_i = all_i + 1;
        }
        let ghost rseq = Seq::new(n_count as nat, |ii: int| rk@[ii]->Some_0 as nat);
        proof {
            assert(rank_ok(cnodes@, rseq)) by {
                assert forall|n: int, j: int|
                    0 <= n < cnodes@.len() && 0 <= j < cnodes@[n].inputs@.len() implies rseq[(
                #[trigger] cnodes@[n].inputs@[j]).node as int] < rseq[n] by {
                    assert(input_ranked_below(cnodes@, rk@, n, j, rk@[n]->Some_0 as int));
                }
            }
            assert(forall|ii: int| 0 <= ii < cnodes@.len() ==> rseq[ii] < cnodes@.len());
            assert(acyclic(cnodes@));
            assert(self.brank_ok(rseq)) by {
                assert forall|i2: int, j: int|
                    0 <= i2 < self.nodes@.len() && 0 <= j < self.nodes@[i2].inputs@.len() implies ((
                #[trigger] self.nodes@[i2].inputs@[j]) matches Some(o) ==> rseq[o.node as int]
                    < rseq[i2]) by {
                    match self.nodes@[i2].inputs@[j] {
                        Some(o) => {
                            assert(Some(cnodes@[i2].inputs@[j]) == self.nodes@[i2].inputs@[j]);
                            assert(cnodes@[i2].inputs@[j] == o);
                        },
                        None => {},
                    }
                }
            }
            assert(self.acyclic());
        }
        Some(SpellCircuit::new(cnodes, output))
    }
}

} // verus!
