use vstd::prelude::*;
use vstd::multiset::Multiset;
use vstd::seq_lib::lemma_multiset_commutative;
use vstd::set_lib::lemma_int_range;
use vstd::set_lib::lemma_len_subset;
use vstd::set_lib::set_int_range;

use crate::error::CircuitError;
use crate::gate::Gate;

verus! {

/// One scheduling step: `gates` are the gates that became ready at this step
/// (all their operand wires resolved strictly earlier), and `prunes` are the
/// wires that no later gate reads and that can be released once the layer has
/// executed.
#[derive(Debug)]
pub struct Layer {
    pub gates: Vec<Gate>,
    pub prunes: Vec<usize>,
}

/// All gates of a layer list, concatenated in layer order.
pub open spec fn layers_gates(layers: Seq<Layer>) -> Seq<Gate>
    decreases layers.len(),
{
    if layers.len() == 0 {
        Seq::empty()
    } else {
        layers_gates(layers.drop_last()) + layers.last().gates@
    }
}

/// All pruned wires of a layer list, concatenated in layer order.
pub open spec fn layers_prunes(layers: Seq<Layer>) -> Seq<usize>
    decreases layers.len(),
{
    if layers.len() == 0 {
        Seq::empty()
    } else {
        layers_prunes(layers.drop_last()) + layers.last().prunes@
    }
}

/// Every listed prune wire lies below `wire_count` and is not a declared
/// output wire.
pub open spec fn prunes_ok(ps: Seq<usize>, wire_count: usize, outs: Seq<usize>) -> bool {
    forall|q: int| 0 <= q < ps.len() ==> (#[trigger] ps[q]) < wire_count && !outs.contains(ps[q])
}

/// The output wires of a gate list.
pub open spec fn gates_outs(gs: Seq<Gate>) -> Set<usize> {
    Set::new(|w: usize| exists|j: int| 0 <= j < gs.len() && (#[trigger] gs[j]).spec_out() == w)
}

/// The wires resolved strictly before layer `k`: the primary inputs plus the
/// outputs of every earlier layer's gates.
pub open spec fn resolved_upto(inputs: Seq<usize>, layers: Seq<Layer>, k: int) -> Set<usize>
    decreases k,
{
    if k <= 0 {
        inputs.to_set()
    } else {
        resolved_upto(inputs, layers, k - 1).union(gates_outs(layers[k - 1].gates@))
    }
}

/// A gate stands correctly in layer `k` when each of its operand wires was
/// resolved strictly earlier and its output wire was not.
pub open spec fn gate_scheduled_ok(
    inputs: Seq<usize>,
    layers: Seq<Layer>,
    k: int,
    g: Gate,
) -> bool {
    &&& forall|p: int|
        0 <= p < g.spec_inputs().len() ==> resolved_upto(inputs, layers, k).contains(
            #[trigger] g.spec_inputs()[p],
        )
    &&& !resolved_upto(inputs, layers, k).contains(g.spec_out())
}

/// Topological validity of a whole layering: every gate of every layer reads
/// only wires resolved by strictly earlier layers or by the primary inputs,
/// and writes a wire that was not resolved before its layer.
pub open spec fn topo_valid(inputs: Seq<usize>, layers: Seq<Layer>) -> bool {
    forall|k: int, j: int|
        0 <= k < layers.len() && 0 <= j < layers[k].gates@.len() ==> gate_scheduled_ok(
            inputs,
            layers,
            k,
            #[trigger] layers[k].gates@[j],
        )
}

/// Every wire a gate names lies below `wire_count`.
pub open spec fn gate_in_range(g: Gate, wire_count: usize) -> bool {
    &&& g.spec_out() < wire_count
    &&& forall|p: int| 0 <= p < g.spec_inputs().len() ==> #[trigger] g.spec_inputs()[p] < wire_count
}

/// Every wire any scheduled gate names lies below `wire_count`.
pub open spec fn layers_in_range(layers: Seq<Layer>, wire_count: usize) -> bool {
    forall|k: int, j: int|
        0 <= k < layers.len() && 0 <= j < layers[k].gates@.len() ==> gate_in_range(
            #[trigger] layers[k].gates@[j],
            wire_count,
        )
}

/// Some gate of the list has wire `w` as an operand.
pub open spec fn gates_read(gs: Seq<Gate>, w: usize) -> bool {
    exists|j: int, p: int|
        0 <= j < gs.len() && 0 <= p < gs[j].spec_inputs().len() && (#[trigger] gs[j].spec_inputs()[
            p
        ]) == w
}

/// No gate of the list reads any wire of `dead`.
pub open spec fn gates_read_unpruned(gs: Seq<Gate>, dead: Seq<usize>) -> bool {
    forall|j: int, p: int|
        0 <= j < gs.len() && 0 <= p < gs[j].spec_inputs().len() ==> !dead.contains(
            #[trigger] gs[j].spec_inputs()[p],
        )
}

/// Pruning is both safe and eager: no layer's gate reads a wire pruned by an
/// earlier layer, and every wire a layer prunes is an operand of one of that
/// same layer's gates — a wire is released exactly at the layer of its last
/// consumer, never before it and never after it.
pub open spec fn prune_timing_ok(layers: Seq<Layer>) -> bool {
    forall|k: int|
        0 <= k < layers.len() ==> {
            &&& gates_read_unpruned((#[trigger] layers[k]).gates@, layers_prunes(layers.take(k)))
            &&& forall|t: int|
                0 <= t < layers[k].prunes@.len() ==> gates_read(
                    layers[k].gates@,
                    #[trigger] layers[k].prunes@[t],
                )
        }
}

/// One of `g`'s operand wires becomes resolved only once layer `k - 1`
/// completes.
pub open spec fn gate_freshly_enabled(
    inputs: Seq<usize>,
    layers: Seq<Layer>,
    k: int,
    g: Gate,
) -> bool {
    exists|p: int|
        0 <= p < g.spec_inputs().len() && !resolved_upto(inputs, layers, k - 1).contains(
            #[trigger] g.spec_inputs()[p],
        )
}

/// Level synchrony: every gate of a layer past the first has an operand
/// resolved exactly by the layer before it, so each gate sits in the
/// earliest layer its operands allow and the layer count is the circuit's
/// depth.
pub open spec fn level_synchronous(inputs: Seq<usize>, layers: Seq<Layer>) -> bool {
    forall|k: int, j: int|
        1 <= k < layers.len() && 0 <= j < layers[k].gates@.len() ==> gate_freshly_enabled(
            inputs,
            layers,
            k,
            #[trigger] layers[k].gates@[j],
        )
}

/// The multiset of the gates at the indices marked in `inc`.
pub open spec fn included_multiset(gates: Seq<Gate>, inc: Seq<bool>) -> Multiset<Gate>
    decreases gates.len(),
{
    if gates.len() == 0 || gates.len() != inc.len() {
        Multiset::empty()
    } else if inc.last() {
        included_multiset(gates.drop_last(), inc.drop_last()).insert(gates.last())
    } else {
        included_multiset(gates.drop_last(), inc.drop_last())
    }
}

/// How many entries of a boolean sequence are true.
pub open spec fn count_trues(s: Seq<bool>) -> nat
    decreases s.len(),
{
    if s.len() == 0 {
        0
    } else {
        count_trues(s.drop_last()) + if s.last() {
            1nat
        } else {
            0nat
        }
    }
}

proof fn lemma_empty_seq_multiset<A>()
    ensures
        Seq::<A>::empty().to_multiset() =~= Multiset::<A>::empty(),
{
    broadcast use vstd::seq_lib::group_to_multiset_ensures;
    broadcast use vstd::multiset::group_multiset_axioms;

    assert forall|a: A| Seq::<A>::empty().to_multiset().count(a) == 0 by {
        assert(!Seq::<A>::empty().contains(a));
    }
}

proof fn lemma_count_trues_le_len(s: Seq<bool>)
    ensures
        count_trues(s) <= s.len(),
    decreases s.len(),
{
    if s.len() > 0 {
        lemma_count_trues_le_len(s.drop_last());
    }
}

proof fn lemma_count_trues_all_false(s: Seq<bool>)
    requires
        forall|i: int| 0 <= i < s.len() ==> !s[i],
    ensures
        count_trues(s) == 0,
    decreases s.len(),
{
    if s.len() > 0 {
        lemma_count_trues_all_false(s.drop_last());
    }
}

proof fn lemma_count_trues_update(s: Seq<bool>, i: int)
    requires
        0 <= i < s.len(),
        !s[i],
    ensures
        count_trues(s.update(i, true)) == count_trues(s) + 1,
    decreases s.len(),
{
    let s2 = s.update(i, true);
    if i == s.len() - 1 {
        assert(s2.drop_last() =~= s.drop_last());
    } else {
        assert(s2.drop_last() =~= s.drop_last().update(i, true));
        lemma_count_trues_update(s.drop_last(), i);
    }
}

proof fn lemma_included_multiset_all_false(gates: Seq<Gate>, inc: Seq<bool>)
    requires
        gates.len() == inc.len(),
        forall|i: int| 0 <= i < inc.len() ==> !inc[i],
    ensures
        included_multiset(gates, inc) =~= Multiset::empty(),
    decreases gates.len(),
{
    if gates.len() > 0 {
        lemma_included_multiset_all_false(gates.drop_last(), inc.drop_last());
    }
}

proof fn lemma_included_multiset_all_true(gates: Seq<Gate>, inc: Seq<bool>)
    requires
        gates.len() == inc.len(),
        forall|i: int| 0 <= i < inc.len() ==> inc[i],
    ensures
        included_multiset(gates, inc) =~= gates.to_multiset(),
    decreases gates.len(),
{
    broadcast use vstd::seq_lib::group_to_multiset_ensures;

    if gates.len() == 0 {
        assert forall|g: Gate| gates.to_multiset().count(g) == 0 by {
            assert(!gates.contains(g));
        }
    } else {
        lemma_included_multiset_all_true(gates.drop_last(), inc.drop_last());
        assert(gates.drop_last().push(gates.last()) =~= gates);
    }
}

proof fn lemma_included_multiset_update(gates: Seq<Gate>, inc: Seq<bool>, i: int)
    requires
        gates.len() == inc.len(),
        0 <= i < gates.len(),
        !inc[i],
    ensures
        included_multiset(gates, inc.update(i, true)) =~= included_multiset(gates, inc).insert(
            gates[i],
        ),
    decreases gates.len(),
{
    broadcast use vstd::multiset::group_multiset_axioms;

    let inc2 = inc.update(i, true);
    if i == gates.len() - 1 {
        assert(inc2.drop_last() =~= inc.drop_last());
        assert(inc2.last());
        assert(gates.last() == gates[i]);
    } else {
        assert(inc2.drop_last() =~= inc.drop_last().update(i, true));
        assert(inc2.last() == inc.last());
        lemma_included_multiset_update(gates.drop_last(), inc.drop_last(), i);
        if inc.last() {
            let base = included_multiset(gates.drop_last(), inc.drop_last());
            assert(base.insert(gates[i]).insert(gates.last()) =~= base.insert(
                gates.last(),
            ).insert(gates[i]));
        }
    }
}

proof fn lemma_layers_gates_push(layers: Seq<Layer>, l: Layer)
    ensures
        layers_gates(layers.push(l)) =~= layers_gates(layers) + l.gates@,
        layers_prunes(layers.push(l)) =~= layers_prunes(layers) + l.prunes@,
{
    assert(layers.push(l).drop_last() =~= layers);
    assert(layers.push(l).last() == l);
}

/// A sequence of pairwise distinct wires all below `bound` has at most
/// `bound` entries.
proof fn lemma_nodup_bounded(s: Seq<usize>, bound: usize)
    requires
        s.no_duplicates(),
        forall|i: int| 0 <= i < s.len() ==> s[i] < bound,
    ensures
        s.len() <= bound,
{
    let si = s.map_values(|x: usize| x as int);
    assert(si.no_duplicates());
    si.unique_seq_to_set();
    assert(si.to_set().subset_of(set_int_range(0, bound as int))) by {
        assert forall|x: int| si.to_set().contains(x) implies set_int_range(
            0,
            bound as int,
        ).contains(x) by {
            let t = choose|t: int| 0 <= t < si.len() && si[t] == x;
            assert(s[t] < bound);
        }
    }
    lemma_int_range(0, bound as int);
    lemma_len_subset(si.to_set(), set_int_range(0, bound as int));
}

/// Produces a layering of `gates`: an ordered sequence of layers, each a
/// batch of mutually independent gates that became ready together, with the
/// wires that die after the layer. Succeeding construction guarantees, of the
/// returned layers:
///
/// - every source gate appears in exactly one layer (the concatenated layer
///   gates are a permutation of the source list);
/// - every gate's operand wires were resolved strictly before its layer and
///   its output wire was not (topological validity), and all its wires lie
///   below `wire_count`;
/// - no layer is empty, and every gate of a layer past the first has an
///   operand resolved exactly by the layer before it (level synchrony: each
///   gate sits in the earliest layer its operands allow);
/// - no wire is pruned twice, no declared output wire is ever pruned, and the
///   number of pruned wires equals `wire_count` minus the number of declared
///   output wires: every non-output wire is freed exactly once;
/// - pruning is safe and eager: no gate reads a wire pruned by an earlier
///   layer, and every wire a layer prunes is read by that same layer, so a
///   wire is released exactly at its last consumer's layer.
///
/// A gate-free circuit over in-range wires whose outputs cover every wire is
/// always accepted, with zero layers. Any malformed source (cyclic or
/// duplicated assignments, out-of-range wires, unused wires) fails these
/// checks and is rejected.
#[verifier::loop_isolation(false)]
#[verifier::rlimit(100)]
pub fn separate_layers(
    gates: &Vec<Gate>,
    wire_count: usize,
    input_wires: Vec<usize>,
    output_wires: Vec<usize>,
) -> (r: Result<Vec<Layer>, CircuitError>)
    ensures
        match r {
            Ok(layers) => {
                &&& layers_gates(layers@).to_multiset() == gates@.to_multiset()
                &&& topo_valid(input_wires@, layers@)
                &&& layers_in_range(layers@, wire_count)
                &&& forall|k: int| 0 <= k < layers@.len() ==> (#[trigger] layers@[k]).gates@.len() > 0
                &&& layers_prunes(layers@).no_duplicates()
                &&& prunes_ok(layers_prunes(layers@), wire_count, output_wires@)
                &&& prune_timing_ok(layers@)
                &&& level_synchronous(input_wires@, layers@)
                &&& layers_prunes(layers@).len() + output_wires@.len() == wire_count
            },
            Err(e) => e matches CircuitError::SchedulingInvariantViolation,
        },
        ({
            &&& gates@.len() == 0
            &&& forall|t: int| 0 <= t < input_wires@.len() ==> #[trigger] input_wires@[t] < wire_count
            &&& forall|t: int|
                0 <= t < output_wires@.len() ==> #[trigger] output_wires@[t] < wire_count
            &&& output_wires@.len() == wire_count
        }) ==> r is Ok,
{
    let n = gates.len();

    // Dense membership mask of the declared output wires.
    let mut out_set: Vec<bool> = Vec::new();
    let mut wi: usize = 0;
    while wi < wire_count
        invariant
            wi <= wire_count,
            out_set@.len() == wi,
            forall|t: int| 0 <= t < wi ==> !out_set@[t],
        decreases wire_count - wi,
    {
        out_set.push(false);
        wi += 1;
    }
    let mut oi: usize = 0;
    while oi < output_wires.len()
        invariant
            oi <= output_wires@.len(),
            out_set@.len() == wire_count,
            forall|w: int|
                0 <= w < wire_count ==> ((#[trigger] out_set@[w]) <==> exists|t: int|
                    0 <= t < oi && output_wires@[t] == w),
        decreases output_wires@.len() - oi,
    {
        let ow = output_wires[oi];
        if ow >= wire_count {
            return Err(CircuitError::SchedulingInvariantViolation);
        }
        out_set[ow] = true;
        oi += 1;
    }
    proof {
        assert forall|w: int| 0 <= w < wire_count implies ((#[trigger] out_set@[w])
            <==> output_wires@.contains(w as usize)) by {
            if out_set@[w] {
                let t = choose|t: int| 0 <= t < output_wires@.len() && output_wires@[t] == w;
                assert(output_wires@[t] == w as usize);
            }
        }
    }

    // Reverse index: for each wire, the gates that read it.
    let mut readers: Vec<Vec<usize>> = Vec::new();
    let mut wi2: usize = 0;
    while wi2 < wire_count
        invariant
            wi2 <= wire_count,
            readers@.len() == wi2,
            forall|u: int| 0 <= u < readers@.len() ==> (#[trigger] readers@[u])@.len() == 0,
        decreases wire_count - wi2,
    {
        readers.push(Vec::new());
        wi2 += 1;
    }
    for gi in 0..n
        invariant
            readers@.len() == wire_count,
            forall|u: int, t: int|
                0 <= u < readers@.len() && 0 <= t < readers@[u]@.len() ==> (#[trigger] readers@[
                    u
                ]@[t]) < n,
    {
        let ops = gates[gi].inputs();
        for t in 0..ops.len()
            invariant
                gi < n,
                readers@.len() == wire_count,
                forall|u: int, t2: int|
                    0 <= u < readers@.len() && 0 <= t2 < readers@[u]@.len() ==> (#[trigger] readers@[
                        u
                    ]@[t2]) < n,
        {
            let opw = ops[t];
            if opw < wire_count {
                readers[opw].push(gi);
            }
        }
    }

    // Remaining-dependency counters: one per unary gate, two per binary gate.
    let mut deps: Vec<usize> = Vec::new();
    for gi in 0..n
        invariant
            deps@.len() == gi,
            forall|t: int| 0 <= t < gi ==> #[trigger] deps@[t] >= 1,
    {
        let d: usize = match gates[gi] {
            Gate::Unary { .. } => 1,
            Gate::Binary { .. } => 2,
        };
        deps.push(d);
    }

    let mut included: Vec<bool> = Vec::new();
    let mut gi2: usize = 0;
    while gi2 < n
        invariant
            gi2 <= n,
            included@.len() == gi2,
            forall|t: int| 0 <= t < gi2 ==> !included@[t],
        decreases n - gi2,
    {
        included.push(false);
        gi2 += 1;
    }
    let mut included_count: usize = 0;
    proof {
        lemma_count_trues_all_false(included@);
        lemma_included_multiset_all_false(gates@, included@);
    }

    // The resolved frontier starts as the primary input wires; each pass over
    // it readies the gates whose last dependency it satisfies, forming one
    // layer, and the readied gates' outputs form the next frontier.
    let mut frontier: Vec<usize> = Vec::new();
    let mut ci: usize = 0;
    while ci < input_wires.len()
        invariant
            ci <= input_wires@.len(),
            frontier@ =~= input_wires@.take(ci as int),
        decreases input_wires@.len() - ci,
    {
        frontier.push(input_wires[ci]);
        proof {
            assert(input_wires@.take(ci + 1) =~= input_wires@.take(ci as int).push(
                input_wires@[ci as int],
            ));
        }
        ci += 1;
    }
    let mut layers: Vec<Layer> = Vec::new();
    proof {
        lemma_empty_seq_multiset::<Gate>();
        assert(layers@ =~= Seq::<Layer>::empty());
        assert(layers_gates(layers@) =~= Seq::<Gate>::empty());
    }

    #[verifier::loop_isolation(true)]
    loop
        invariant
            n == gates@.len(),
            readers@.len() == wire_count,
            forall|u: int, t: int|
                0 <= u < readers@.len() && 0 <= t < readers@[u]@.len() ==> (#[trigger] readers@[
                    u
                ]@[t]) < n,
            out_set@.len() == wire_count,
            deps@.len() == n,
            included@.len() == n,
            forall|t: int| 0 <= t < n ==> ((#[trigger] included@[t]) ==> deps@[t] == 0),
            included_count == count_trues(included@),
            included_count <= n,
            layers_gates(layers@).to_multiset() =~= included_multiset(gates@, included@),
            forall|k: int| 0 <= k < layers@.len() ==> (#[trigger] layers@[k]).gates@.len() > 0,
        ensures
            included@.len() == n,
            layers_gates(layers@).to_multiset() =~= included_multiset(gates@, included@),
            forall|k: int| 0 <= k < layers@.len() ==> (#[trigger] layers@[k]).gates@.len() > 0,
        decreases n - included_count,
    {
        let ghost count0 = included_count as int;
        let mut layer_gates: Vec<Gate> = Vec::new();
        let mut layer_prunes: Vec<usize> = Vec::new();
        let mut next_frontier: Vec<usize> = Vec::new();
        proof {
            broadcast use vstd::multiset::group_multiset_axioms;

            lemma_empty_seq_multiset::<Gate>();
            assert(layer_gates@ =~= Seq::<Gate>::empty());
        }

        let mut fi: usize = 0;
        while fi < frontier.len()
            invariant
                fi <= frontier@.len(),
                deps@.len() == n,
                included@.len() == n,
                forall|t: int| 0 <= t < n ==> ((#[trigger] included@[t]) ==> deps@[t] == 0),
                included_count == count_trues(included@),
                included_count <= n,
                included_count == count0 + layer_gates@.len(),
                layers_gates(layers@).to_multiset().add(layer_gates@.to_multiset())
                    =~= included_multiset(gates@, included@),
            decreases frontier@.len() - fi,
        {
            let w = frontier[fi];
            if w < wire_count {
                let mut ri: usize = 0;
                while ri < readers[w].len()
                    invariant
                        w < wire_count,
                        ri <= readers@[w as int]@.len(),
                        deps@.len() == n,
                        included@.len() == n,
                        forall|t: int| 0 <= t < n ==> ((#[trigger] included@[t]) ==> deps@[t] == 0),
                        included_count == count_trues(included@),
                        included_count <= n,
                        included_count == count0 + layer_gates@.len(),
                        layers_gates(layers@).to_multiset().add(layer_gates@.to_multiset())
                            =~= included_multiset(gates@, included@),
                    decreases readers@[w as int]@.len() - ri,
                {
                    let gi = readers[w][ri];
                    if deps[gi] > 0 {
                        let d = deps[gi] - 1;
                        deps[gi] = d;
                        if d == 0 {
                            proof {
                                lemma_count_trues_update(included@, gi as int);
                                lemma_count_trues_le_len(included@.update(gi as int, true));
                                lemma_included_multiset_update(gates@, included@, gi as int);
                            }
                            included[gi] = true;
                            included_count += 1;
                            let g = gates[gi];
                            next_frontier.push(g.out());
                            // Release each distinct operand wire whose every
                            // reader has now been scheduled; declared output
                            // wires survive until final read-out.
                            let ops = g.inputs();
                            let mut pi: usize = 0;
                            while pi < ops.len()
                                invariant
                                    pi <= ops@.len(),
                                    out_set@.len() == wire_count,
                                    readers@.len() == wire_count,
                                    included@.len() == n,
                                decreases ops@.len() - pi,
                            {
                                let opw = ops[pi];
                                let dup = pi > 0 && ops[pi - 1] == opw;
                                if !dup && opw < wire_count && !out_set[opw] {
                                    let rl = readers[opw].len();
                                    let mut all_included = true;
                                    let mut si: usize = 0;
                                    while si < rl && all_included
                                        invariant
                                            si <= rl,
                                            opw < wire_count,
                                            rl == readers@[opw as int]@.len(),
                                            included@.len() == n,
                                        decreases rl - si,
                                    {
                                        if !included[readers[opw][si]] {
                                            all_included = false;
                                        }
                                        si += 1;
                                    }
                                    if all_included {
                                        layer_prunes.push(opw);
                                    }
                                }
                                pi += 1;
                            }
                            proof {
                                broadcast use vstd::seq_lib::group_to_multiset_ensures;
                                broadcast use vstd::multiset::group_multiset_axioms;

                                assert(layers_gates(layers@).to_multiset().add(
                                    layer_gates@.push(g).to_multiset(),
                                ) =~= included_multiset(gates@, included@));
                            }
                            layer_gates.push(g);
                        }
                    }
                    ri += 1;
                }
            }
            fi += 1;
        }

        if layer_gates.len() == 0 {
            proof {
                broadcast use vstd::multiset::group_multiset_axioms;

                lemma_empty_seq_multiset::<Gate>();
                assert(layer_gates@ =~= Seq::<Gate>::empty());
            }
            break;
        }
        let new_layer = Layer { gates: layer_gates, prunes: layer_prunes };
        proof {
            broadcast use vstd::multiset::group_multiset_axioms;

            lemma_layers_gates_push(layers@, new_layer);
            lemma_multiset_commutative(layers_gates(layers@), new_layer.gates@);
        }
        layers.push(new_layer);
        frontier = next_frontier;
    }

    // Postcondition check: every gate was scheduled.
    for j in 0..n
        invariant
            forall|t: int| 0 <= t < j ==> included@[t],
    {
        if !included[j] {
            return Err(CircuitError::SchedulingInvariantViolation);
        }
    }
    proof {
        lemma_included_multiset_all_true(gates@, included@);
        broadcast use vstd::seq_lib::group_to_multiset_ensures;

        if gates@.len() == 0 && layers@.len() > 0 {
            assert(layers_gates(layers@).to_multiset() =~= gates@.to_multiset());
            assert(layers_gates(layers@).len() == layers_gates(layers@).to_multiset().len());
            assert(layers@.last().gates@.len() > 0);
            assert(layers_gates(layers@) =~= layers_gates(layers@.drop_last())
                + layers@.last().gates@);
            assert(false);
        }
    }


    if !check_topology(&layers, wire_count, &input_wires) {
        return Err(CircuitError::SchedulingInvariantViolation);
    }

    let prune_count = match check_prunes(&layers, wire_count, &out_set, &output_wires) {
        Some(c) => c,
        None => { return Err(CircuitError::SchedulingInvariantViolation) },
    };

    // Postcondition check: the prune total equals wire count minus output
    // count, so every non-output wire was freed exactly once.
    if !(prune_count <= wire_count && wire_count - prune_count == output_wires.len()) {
        return Err(CircuitError::SchedulingInvariantViolation);
    }

    Ok(layers)
}


/// Validates the topological shape of a layering: every gate's operand wires
/// resolved strictly before its layer, every output wire fresh, all wires in
/// range, and every gate past the first layer enabled by an output of the
/// layer directly before it.
#[verifier::loop_isolation(false)]
#[verifier::rlimit(100)]
fn check_topology(layers: &Vec<Layer>, wire_count: usize, input_wires: &Vec<usize>) -> (r: bool)
    ensures
        r ==> topo_valid(input_wires@, layers@) && layers_in_range(layers@, wire_count)
            && level_synchronous(input_wires@, layers@),
        (layers@.len() == 0 && forall|t: int|
            0 <= t < input_wires@.len() ==> #[trigger] input_wires@[t] < wire_count) ==> r,
{
    let mut resolved: Vec<bool> = Vec::new();
    let mut wi3: usize = 0;
    while wi3 < wire_count
        invariant
            wi3 <= wire_count,
            resolved@.len() == wi3,
            forall|t: int| 0 <= t < wi3 ==> !resolved@[t],
        decreases wire_count - wi3,
    {
        resolved.push(false);
        wi3 += 1;
    }
    let mut levels: Vec<usize> = Vec::new();
    let mut wi6: usize = 0;
    while wi6 < wire_count
        invariant
            wi6 <= wire_count,
            levels@.len() == wi6,
            forall|t: int| 0 <= t < wi6 ==> #[trigger] levels@[t] == 0,
        decreases wire_count - wi6,
    {
        levels.push(0);
        wi6 += 1;
    }
    let mut ii: usize = 0;
    while ii < input_wires.len()
        invariant
            ii <= input_wires@.len(),
            resolved@.len() == wire_count,
            forall|w: int|
                0 <= w < wire_count ==> ((#[trigger] resolved@[w]) <==> exists|t: int|
                    0 <= t < ii && input_wires@[t] == w),
        decreases input_wires@.len() - ii,
    {
        let iw = input_wires[ii];
        if iw >= wire_count {
            return false;
        }
        resolved[iw] = true;
        ii += 1;
    }
    proof {
        assert forall|w: int| 0 <= w < wire_count implies ((#[trigger] resolved@[w])
            <==> resolved_upto(input_wires@, layers@, 0).contains(w as usize)) by {
            if resolved@[w] {
                let t = choose|t: int| 0 <= t < input_wires@.len() && input_wires@[t] == w;
                assert(input_wires@[t] == w as usize);
            }
            if resolved_upto(input_wires@, layers@, 0).contains(w as usize) {
                assert(input_wires@.contains(w as usize));
                let t = choose|t: int| 0 <= t < input_wires@.len() && input_wires@[t] == w as usize;
                assert(input_wires@[t] == w);
            }
        }
    }
    let layer_count = layers.len();
    for k in 0..layer_count
        invariant
            resolved@.len() == wire_count,
            levels@.len() == wire_count,
            forall|w: int|
                0 <= w < wire_count && resolved@[w] ==> (#[trigger] levels@[w]) <= k
                    && resolved_upto(input_wires@, layers@, levels@[w] as int).contains(w as usize)
                    && (levels@[w] > 0 ==> !resolved_upto(
                        input_wires@,
                        layers@,
                        levels@[w] - 1,
                    ).contains(w as usize)),
            forall|w: int|
                0 <= w < wire_count ==> ((#[trigger] resolved@[w]) <==> resolved_upto(
                    input_wires@,
                    layers@,
                    k as int,
                ).contains(w as usize)),
            forall|k2: int, j: int|
                0 <= k2 < k && 0 <= j < layers@[k2].gates@.len() ==> gate_scheduled_ok(
                    input_wires@,
                    layers@,
                    k2,
                    #[trigger] layers@[k2].gates@[j],
                ) && gate_in_range(layers@[k2].gates@[j], wire_count) && (k2 == 0
                    || gate_freshly_enabled(input_wires@, layers@, k2, layers@[k2].gates@[j])),
    {
        let lg_len = layers[k].gates.len();
        for j in 0..lg_len
            invariant
                k < layers@.len(),
                lg_len == layers@[k as int].gates@.len(),
                resolved@.len() == wire_count,
                forall|w: int|
                    0 <= w < wire_count ==> ((#[trigger] resolved@[w]) <==> resolved_upto(
                        input_wires@,
                        layers@,
                        k as int,
                    ).contains(w as usize)),
                forall|j2: int|
                    0 <= j2 < j ==> gate_scheduled_ok(
                        input_wires@,
                        layers@,
                        k as int,
                        #[trigger] layers@[k as int].gates@[j2],
                    ) && gate_in_range(layers@[k as int].gates@[j2], wire_count) && (k == 0
                        || gate_freshly_enabled(
                        input_wires@,
                        layers@,
                        k as int,
                        layers@[k as int].gates@[j2],
                    )),
                levels@.len() == wire_count,
                forall|w: int|
                    0 <= w < wire_count && resolved@[w] ==> (#[trigger] levels@[w]) <= k
                        && resolved_upto(input_wires@, layers@, levels@[w] as int).contains(
                        w as usize,
                    ) && (levels@[w] > 0 ==> !resolved_upto(
                        input_wires@,
                        layers@,
                        levels@[w] - 1,
                    ).contains(w as usize)),
        {
            let g = layers[k].gates[j];
            let ops = g.inputs();
            let mut fresh_operand = k == 0;
            for p in 0..ops.len()
                invariant
                    ops@ == g.spec_inputs(),
                    resolved@.len() == wire_count,
                    forall|w: int|
                        0 <= w < wire_count ==> ((#[trigger] resolved@[w]) <==> resolved_upto(
                            input_wires@,
                            layers@,
                            k as int,
                        ).contains(w as usize)),
                    forall|p2: int|
                        0 <= p2 < p ==> (#[trigger] ops@[p2]) < wire_count && resolved_upto(
                            input_wires@,
                            layers@,
                            k as int,
                        ).contains(ops@[p2]),
                    levels@.len() == wire_count,
                    k < layers@.len(),
                    forall|w: int|
                        0 <= w < wire_count && resolved@[w] ==> (#[trigger] levels@[w]) <= k
                            && resolved_upto(input_wires@, layers@, levels@[w] as int).contains(
                            w as usize,
                        ) && (levels@[w] > 0 ==> !resolved_upto(
                            input_wires@,
                            layers@,
                            levels@[w] - 1,
                        ).contains(w as usize)),
                    fresh_operand ==> (k == 0 || gate_freshly_enabled(
                        input_wires@,
                        layers@,
                        k as int,
                        g,
                    )),
            {
                let opw = ops[p];
                if opw >= wire_count {
                    return false;
                }
                if !resolved[opw] {
                    return false;
                }
                if k > 0 && levels[opw] == k {
                    proof {
                        assert(ops@[p as int] == opw);
                        assert(!resolved_upto(input_wires@, layers@, k - 1).contains(opw));
                        assert(gate_freshly_enabled(input_wires@, layers@, k as int, g));
                    }
                    fresh_operand = true;
                }
            }
            if !fresh_operand {
                return false;
            }
            let o = g.out();
            if o >= wire_count {
                return false;
            }
            if resolved[o] {
                return false;
            }
            proof {
                assert(gate_scheduled_ok(input_wires@, layers@, k as int, g));
                assert(gate_in_range(g, wire_count));
            }
        }
        // Mark the layer's outputs resolved for the next layer.
        let ghost pre_resolved = resolved@;
        let ghost pre_levels = levels@;
        for j in 0..lg_len
            invariant
                k < layers@.len(),
                lg_len == layers@[k as int].gates@.len(),
                resolved@.len() == wire_count,
                levels@.len() == wire_count,
                forall|w: int|
                    0 <= w < wire_count && pre_resolved[w] ==> (#[trigger] levels@[w])
                        == pre_levels[w],
                forall|w: int|
                    0 <= w < wire_count && !pre_resolved[w] && resolved@[w] ==> (
                    #[trigger] levels@[w]) == k + 1,
                forall|w: int|
                    0 <= w < wire_count ==> ((#[trigger] pre_resolved[w]) <==> resolved_upto(
                        input_wires@,
                        layers@,
                        k as int,
                    ).contains(w as usize)),
                forall|j2: int|
                    0 <= j2 < lg_len ==> gate_scheduled_ok(
                        input_wires@,
                        layers@,
                        k as int,
                        #[trigger] layers@[k as int].gates@[j2],
                    ),
                forall|j2: int|
                    0 <= j2 < lg_len ==> gate_in_range(
                        #[trigger] layers@[k as int].gates@[j2],
                        wire_count,
                    ),
                forall|w: int|
                    0 <= w < wire_count ==> ((#[trigger] resolved@[w]) <==> (pre_resolved[w]
                        || exists|j2: int|
                        0 <= j2 < j && (#[trigger] layers@[k as int].gates@[j2]).spec_out()
                            == w)),
        {
            let o = layers[k].gates[j].out();
            proof {
                assert(gate_scheduled_ok(
                    input_wires@,
                    layers@,
                    k as int,
                    layers@[k as int].gates@[j as int],
                ));
                assert(!pre_resolved[o as int]);
            }
            resolved[o] = true;
            levels[o] = k + 1;
        }
        proof {
            assert forall|w: int| 0 <= w < wire_count implies ((#[trigger] resolved@[w])
                <==> resolved_upto(input_wires@, layers@, k + 1).contains(w as usize)) by {
                assert(resolved_upto(input_wires@, layers@, k + 1) =~= resolved_upto(
                    input_wires@,
                    layers@,
                    k as int,
                ).union(gates_outs(layers@[k as int].gates@)));
                if resolved@[w] && !pre_resolved[w] {
                    let j2 = choose|j2: int|
                        0 <= j2 < layers@[k as int].gates@.len() && (#[trigger] layers@[k
                            as int].gates@[j2]).spec_out() == w;
                    assert(gates_outs(layers@[k as int].gates@).contains(w as usize));
                }
                if !resolved@[w] && resolved_upto(input_wires@, layers@, k + 1).contains(
                    w as usize,
                ) {
                    if gates_outs(layers@[k as int].gates@).contains(w as usize) {
                        let j2 = choose|j2: int|
                            0 <= j2 < layers@[k as int].gates@.len() && (#[trigger] layers@[k
                                as int].gates@[j2]).spec_out() == w as usize;
                        assert(layers@[k as int].gates@[j2].spec_out() == w);
                        assert(false);
                    }
                }
            }
            assert forall|w: int| 0 <= w < wire_count && resolved@[w] implies (
                #[trigger] levels@[w]) <= k + 1 && resolved_upto(
                input_wires@,
                layers@,
                levels@[w] as int,
            ).contains(w as usize) && (levels@[w] > 0 ==> !resolved_upto(
                input_wires@,
                layers@,
                levels@[w] - 1,
            ).contains(w as usize)) by {
                assert(resolved_upto(input_wires@, layers@, k + 1) =~= resolved_upto(
                    input_wires@,
                    layers@,
                    k as int,
                ).union(gates_outs(layers@[k as int].gates@)));
                if pre_resolved[w] {
                    assert(levels@[w] == pre_levels[w]);
                } else {
                    assert(levels@[w] == k + 1);
                }
            }
        }
    }
    assert(topo_valid(input_wires@, layers@));
    assert(layers_in_range(layers@, wire_count));
    assert(level_synchronous(input_wires@, layers@));
    true
}


/// Validates the liveness schedule of a layering: no wire pruned twice or
/// out of range, no declared output wire pruned, no gate reading a wire an
/// earlier layer pruned, and every pruned wire read by its own layer.
/// Returns the total number of pruned wires.
#[verifier::loop_isolation(false)]
#[verifier::rlimit(100)]
fn check_prunes(
    layers: &Vec<Layer>,
    wire_count: usize,
    out_set: &Vec<bool>,
    output_wires: &Vec<usize>,
) -> (r: Option<usize>)
    requires
        out_set@.len() == wire_count,
        forall|w: int|
            0 <= w < wire_count ==> ((#[trigger] out_set@[w]) <==> output_wires@.contains(
                w as usize,
            )),
        layers_in_range(layers@, wire_count),
    ensures
        match r {
            Some(c) => {
                &&& layers_prunes(layers@).no_duplicates()
                &&& prunes_ok(layers_prunes(layers@), wire_count, output_wires@)
                &&& prune_timing_ok(layers@)
                &&& c == layers_prunes(layers@).len()
                &&& c <= wire_count
            },
            None => true,
        },
        layers@.len() == 0 ==> r == Some(0usize),
{
    let layer_count = layers.len();
    let mut pruned: Vec<bool> = Vec::new();
    let mut wi4: usize = 0;
    while wi4 < wire_count
        invariant
            wi4 <= wire_count,
            pruned@.len() == wi4,
            forall|t: int| 0 <= t < wi4 ==> !pruned@[t],
        decreases wire_count - wi4,
    {
        pruned.push(false);
        wi4 += 1;
    }
    let mut stamp: Vec<usize> = Vec::new();
    let mut wi5: usize = 0;
    while wi5 < wire_count
        invariant
            wi5 <= wire_count,
            stamp@.len() == wi5,
            forall|t: int| 0 <= t < wi5 ==> #[trigger] stamp@[t] == 0,
        decreases wire_count - wi5,
    {
        stamp.push(0);
        wi5 += 1;
    }
    let mut prune_count: usize = 0;
    proof {
        assert(layers_prunes(layers@.take(0)) =~= Seq::<usize>::empty());
    }
    for k in 0..layer_count
        invariant
            pruned@.len() == wire_count,
            stamp@.len() == wire_count,
            forall|w: int| 0 <= w < wire_count ==> (#[trigger] stamp@[w]) <= k,
            prune_count == layers_prunes(layers@.take(k as int)).len(),
            layers_prunes(layers@.take(k as int)).no_duplicates(),
            prunes_ok(layers_prunes(layers@.take(k as int)), wire_count, output_wires@),
            forall|w: int|
                0 <= w < wire_count ==> ((#[trigger] pruned@[w]) <==> layers_prunes(
                    layers@.take(k as int),
                ).contains(w as usize)),
            forall|k2: int|
                0 <= k2 < k ==> gates_read_unpruned(
                    (#[trigger] layers@[k2]).gates@,
                    layers_prunes(layers@.take(k2)),
                ),
            forall|k2: int, t: int|
                0 <= k2 < k && 0 <= t < layers@[k2].prunes@.len() ==> gates_read(
                    layers@[k2].gates@,
                    #[trigger] layers@[k2].prunes@[t],
                ),
    {
        let ghost done = layers_prunes(layers@.take(k as int));
        let pl_len = layers[k].prunes.len();
        proof {
            assert(layers@[k as int].prunes@.take(0) =~= Seq::<usize>::empty());
            assert(done + layers@[k as int].prunes@.take(0) =~= done);
        }
        // No gate of this layer may read a wire an earlier layer pruned, and
        // every wire this layer prunes must be read here: stamp the layer's
        // operand wires.
        let lg_len2 = layers[k].gates.len();
        proof {
            assert(layers@[k as int].gates@.take(0) =~= Seq::<Gate>::empty());
        }
        for j in 0..lg_len2
            invariant
                k < layers@.len(),
                lg_len2 == layers@[k as int].gates@.len(),
                stamp@.len() == wire_count,
                forall|w: int| 0 <= w < wire_count ==> (#[trigger] stamp@[w]) <= k + 1,
                forall|w: int|
                    0 <= w < wire_count ==> (((#[trigger] stamp@[w]) == k + 1) <==> gates_read(
                        layers@[k as int].gates@.take(j as int),
                        w as usize,
                    )),
                gates_read_unpruned(layers@[k as int].gates@.take(j as int), done),
        {
            let g = layers[k].gates[j];
            proof {
                assert(gate_in_range(layers@[k as int].gates@[j as int], wire_count));
            }
            let ops = g.inputs();
            for p in 0..ops.len()
                invariant
                    k < layers@.len(),
                    j < lg_len2,
                    lg_len2 == layers@[k as int].gates@.len(),
                    ops@ == layers@[k as int].gates@[j as int].spec_inputs(),
                    gate_in_range(layers@[k as int].gates@[j as int], wire_count),
                    stamp@.len() == wire_count,
                    forall|w: int| 0 <= w < wire_count ==> (#[trigger] stamp@[w]) <= k + 1,
                    forall|w: int|
                        0 <= w < wire_count ==> (((#[trigger] stamp@[w]) == k + 1) <==> (
                        gates_read(layers@[k as int].gates@.take(j as int), w as usize)
                            || exists|p2: int| 0 <= p2 < p && (#[trigger] ops@[p2]) == w)),
                    forall|p2: int| 0 <= p2 < p ==> !done.contains(#[trigger] ops@[p2]),
            {
                let o = ops[p];
                if pruned[o] {
                    return None;
                }
                stamp[o] = k + 1;
                proof {
                    assert(ops@[p as int] == o);
                }
            }
            proof {
                let gs = layers@[k as int].gates@;
                assert forall|w: int| 0 <= w < wire_count implies (((#[trigger] stamp@[w]) == k
                    + 1) <==> gates_read(gs.take(j + 1), w as usize)) by {
                    if stamp@[w] == k + 1 {
                        if gates_read(gs.take(j as int), w as usize) {
                            let (j2, p2) = choose|j2: int, p2: int|
                                0 <= j2 < gs.take(j as int).len() && 0 <= p2 < gs.take(
                                    j as int,
                                )[j2].spec_inputs().len() && (#[trigger] gs.take(j as int)[
                                    j2
                                ].spec_inputs()[p2]) == w as usize;
                            assert((gs.take(j + 1)[j2].spec_inputs()[p2]) == w as usize);
                        } else {
                            let p2 = choose|p2: int|
                                0 <= p2 < ops@.len() && (#[trigger] ops@[p2]) == w;
                            assert((gs.take(j + 1)[j as int].spec_inputs()[p2]) == w as usize);
                        }
                    }
                    if gates_read(gs.take(j + 1), w as usize) {
                        let (j2, p2) = choose|j2: int, p2: int|
                            0 <= j2 < gs.take(j + 1).len() && 0 <= p2 < gs.take(j + 1)[
                                j2
                            ].spec_inputs().len() && (#[trigger] gs.take(j + 1)[j2].spec_inputs()[
                                p2
                            ]) == w as usize;
                        if j2 < j {
                            assert((gs.take(j as int)[j2].spec_inputs()[p2]) == w as usize);
                        } else {
                            assert(ops@[p2] == w as usize);
                        }
                    }
                }
                assert forall|j2: int, p2: int|
                    0 <= j2 < gs.take(j + 1).len() && 0 <= p2 < gs.take(j + 1)[
                    j2
                ].spec_inputs().len() implies !done.contains(#[trigger] gs.take(j + 1)[
                    j2
                ].spec_inputs()[p2]) by {
                    if j2 < j {
                        assert(gs.take(j as int)[j2] == gs.take(j + 1)[j2]);
                        assert(!done.contains(gs.take(j as int)[j2].spec_inputs()[p2]));
                    } else {
                        assert(gs.take(j + 1)[j2] == layers@[k as int].gates@[j as int]);
                    }
                }
            }
        }
        proof {
            assert(layers@[k as int].gates@.take(lg_len2 as int) =~= layers@[k as int].gates@);
        }
        for t in 0..pl_len
            invariant
                k < layers@.len(),
                pl_len == layers@[k as int].prunes@.len(),
                pruned@.len() == wire_count,
                prune_count == (done + layers@[k as int].prunes@.take(t as int)).len(),
                (done + layers@[k as int].prunes@.take(t as int)).no_duplicates(),
                prunes_ok(
                    done + layers@[k as int].prunes@.take(t as int),
                    wire_count,
                    output_wires@,
                ),
                forall|w: int|
                    0 <= w < wire_count ==> ((#[trigger] pruned@[w]) <==> (done + layers@[k
                        as int].prunes@.take(t as int)).contains(w as usize)),
                forall|t2: int|
                    0 <= t2 < t ==> gates_read(
                        layers@[k as int].gates@,
                        #[trigger] layers@[k as int].prunes@[t2],
                    ),
        {
            let ghost cur = done + layers@[k as int].prunes@.take(t as int);
            let p = layers[k].prunes[t];
            if p >= wire_count {
                return None;
            }
            if out_set[p] {
                return None;
            }
            if pruned[p] {
                return None;
            }
            if stamp[p] != k + 1 {
                return None;
            }
            pruned[p] = true;
            proof {
                assert(!cur.contains(p));
                let next = done + layers@[k as int].prunes@.take(t + 1);
                assert(next =~= cur.push(p));
                assert forall|q: int, q2: int| 0 <= q < q2 < next.len() implies next[q]
                    != next[q2] by {
                    if q2 == next.len() - 1 {
                        assert(next[q2] == p);
                        assert(cur.contains(cur[q]));
                    }
                }
                assert forall|q: int| 0 <= q < next.len() implies (#[trigger] next[q])
                    < wire_count && !output_wires@.contains(next[q]) by {
                    if q < cur.len() {
                        assert(next[q] == cur[q]);
                    } else {
                        assert(next[q] == p);
                        assert(!output_wires@.contains(p));
                    }
                }
                lemma_nodup_bounded(next, wire_count);
                assert forall|w: int| 0 <= w < wire_count implies ((#[trigger] pruned@[w])
                    <==> next.contains(w as usize)) by {
                    if w == p {
                        assert(next[next.len() - 1] == p);
                        assert(next.contains(p));
                    } else {
                        if next.contains(w as usize) {
                            let q = choose|q: int| 0 <= q < next.len() && next[q] == w as usize;
                            assert(next[q] == cur[q]);
                            assert(cur.contains(w as usize));
                        }
                        if cur.contains(w as usize) {
                            let q = choose|q: int| 0 <= q < cur.len() && cur[q] == w as usize;
                            assert(next[q] == w as usize);
                        }
                    }
                }
            }
            prune_count += 1;
        }
        proof {
            assert(layers@[k as int].prunes@.take(pl_len as int) =~= layers@[k as int].prunes@);
            assert(layers@.take(k + 1) =~= layers@.take(k as int).push(layers@[k as int]));
            lemma_layers_gates_push(layers@.take(k as int), layers@[k as int]);
        }
    }
    proof {
        assert(layers@.take(layer_count as int) =~= layers@);
        assert(prune_timing_ok(layers@));
        lemma_nodup_bounded(layers_prunes(layers@), wire_count);
    }
    Some(prune_count)
}

/// Layer independence: two gates of one layer never feed each other — no
/// operand wire of either is the output wire of the other, so the gates of a
/// layer may be evaluated in any order, or in parallel.
pub proof fn lemma_layer_independence(
    inputs: Seq<usize>,
    layers: Seq<Layer>,
    k: int,
    j1: int,
    j2: int,
)
    requires
        topo_valid(inputs, layers),
        0 <= k < layers.len(),
        0 <= j1 < layers[k].gates@.len(),
        0 <= j2 < layers[k].gates@.len(),
    ensures
        forall|p: int|
            0 <= p < layers[k].gates@[j2].spec_inputs().len() ==> #[trigger] layers[k].gates@[
                j2
            ].spec_inputs()[p] != layers[k].gates@[j1].spec_out(),
{
    let g1 = layers[k].gates@[j1];
    let g2 = layers[k].gates@[j2];
    assert(gate_scheduled_ok(inputs, layers, k, g1));
    assert(gate_scheduled_ok(inputs, layers, k, g2));
}

/// Whatever is resolved before layer `k` is a primary input or the output of
/// a gate of a strictly earlier layer.
pub proof fn lemma_resolved_upto_member(inputs: Seq<usize>, layers: Seq<Layer>, k: int, w: usize)
    requires
        0 <= k,
        resolved_upto(inputs, layers, k).contains(w),
    ensures
        inputs.contains(w) || exists|k2: int, j2: int|
            0 <= k2 < k && 0 <= j2 < layers[k2].gates@.len() && (#[trigger] layers[k2].gates@[
                j2
            ]).spec_out() == w,
    decreases k,
{
    if k > 0 {
        if resolved_upto(inputs, layers, k - 1).contains(w) {
            lemma_resolved_upto_member(inputs, layers, k - 1, w);
        } else {
            assert(gates_outs(layers[k - 1].gates@).contains(w));
            let j2 = choose|j2: int|
                0 <= j2 < layers[k - 1].gates@.len() && (#[trigger] layers[k - 1].gates@[
                    j2
                ]).spec_out() == w;
            assert(0 <= k - 1 < k && 0 <= j2 < layers[k - 1].gates@.len() && layers[k
                - 1].gates@[j2].spec_out() == w);
        }
    }
}

/// Topological validity, spelled out: every operand wire of every scheduled
/// gate is a primary input or the output wire of a gate in a strictly
/// earlier layer.
pub proof fn lemma_topological_validity(
    inputs: Seq<usize>,
    layers: Seq<Layer>,
    k: int,
    j: int,
    p: int,
)
    requires
        topo_valid(inputs, layers),
        0 <= k < layers.len(),
        0 <= j < layers[k].gates@.len(),
        0 <= p < layers[k].gates@[j].spec_inputs().len(),
    ensures
        ({
            let w = layers[k].gates@[j].spec_inputs()[p];
            inputs.contains(w) || exists|k2: int, j2: int|
                0 <= k2 < k && 0 <= j2 < layers[k2].gates@.len() && (#[trigger] layers[k2].gates@[
                    j2
                ]).spec_out() == w
        }),
{
    let g = layers[k].gates@[j];
    assert(gate_scheduled_ok(inputs, layers, k, g));
    let w = g.spec_inputs()[p];
    assert(resolved_upto(inputs, layers, k).contains(w));
    lemma_resolved_upto_member(inputs, layers, k, w);
}

proof fn lemma_layers_prunes_prefix(layers: Seq<Layer>, k: int, t: int, j: int)
    requires
        0 <= k < j <= layers.len(),
        0 <= t < layers[k].prunes@.len(),
    ensures
        layers_prunes(layers.take(j)).contains(layers[k].prunes@[t]),
    decreases j,
{
    let w = layers[k].prunes@[t];
    assert(layers.take(j).drop_last() =~= layers.take(j - 1));
    assert(layers.take(j).last() == layers[j - 1]);
    if j == k + 1 {
        let base = layers_prunes(layers.take(k));
        assert(layers_prunes(layers.take(j))[base.len() + t] == w);
    } else {
        lemma_layers_prunes_prefix(layers, k, t, j - 1);
        let prior = layers_prunes(layers.take(j - 1));
        let q = choose|q: int| 0 <= q < prior.len() && prior[q] == w;
        assert(layers_prunes(layers.take(j))[q] == w);
    }
}

/// A pruned wire is read by a gate of its own layer and by no gate of any
/// later layer: the schedule releases each wire exactly at its last
/// consumer's layer.
pub proof fn lemma_prune_at_last_read(layers: Seq<Layer>, k: int, t: int, j: int)
    requires
        prune_timing_ok(layers),
        0 <= k < layers.len(),
        0 <= t < layers[k].prunes@.len(),
        k < j < layers.len(),
    ensures
        gates_read(layers[k].gates@, layers[k].prunes@[t]),
        !gates_read(layers[j].gates@, layers[k].prunes@[t]),
{
    let w = layers[k].prunes@[t];
    assert(gates_read(layers[k].gates@, w)) by {
        assert(0 <= k < layers.len());
    }
    if gates_read(layers[j].gates@, w) {
        let (j2, p) = choose|j2: int, p: int|
            0 <= j2 < layers[j].gates@.len() && 0 <= p < layers[j].gates@[j2].spec_inputs().len()
                && (layers[j].gates@[j2].spec_inputs()[p]) == w;
        lemma_layers_prunes_prefix(layers, k, t, j);
        assert(gates_read_unpruned(layers[j].gates@, layers_prunes(layers.take(j))));
        assert(!layers_prunes(layers.take(j)).contains(layers[j].gates@[j2].spec_inputs()[p]));
        assert(false);
    }
}

} // verus!
