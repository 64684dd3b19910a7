use vstd::prelude::*;

use rayon::iter::IntoParallelRefIterator;
use rayon::iter::ParallelIterator;

use crate::circuit::LayeredCircuit;
use crate::error::CircuitError;
use crate::gate::BinaryOp;
use crate::gate::Gate;
use crate::gate::UnaryOp;
use crate::label::CircuitLabel;
use crate::layering::Layer;
use crate::layering::gate_in_range;
use crate::layering::gate_scheduled_ok;
use crate::layering::gates_outs;
use crate::layering::gates_read_unpruned;
use crate::layering::layers_in_range;
use crate::layering::layers_prunes;
use crate::layering::prune_timing_ok;
use crate::layering::resolved_upto;
use crate::layering::topo_valid;

verus! {

/// The boolean-algebra capability a wire value must offer: AND, OR, XOR and
/// NOT, plus cheap duplication of a value's handle. This is the evaluator's
/// single requirement of a value type, satisfied equally by plaintext
/// booleans and homomorphically encrypted bits.
///
/// `bval` is the boolean a value stands for in specifications: a plaintext
/// boolean is its own model, an encrypted bit's model is the bit it
/// encrypts. Each operation promises only what it does to that model.
pub trait BooleanOps: Sized {
    /// The boolean this value stands for.
    spec fn bval(&self) -> bool;

    /// Logical conjunction.
    fn and(self, other: Self) -> (r: Self)
        ensures
            r.bval() == (self.bval() && other.bval()),
    ;

    /// Logical disjunction.
    fn or(self, other: Self) -> (r: Self)
        ensures
            r.bval() == (self.bval() || other.bval()),
    ;

    /// Exclusive disjunction.
    fn xor(self, other: Self) -> (r: Self)
        ensures
            r.bval() == (self.bval() != other.bval()),
    ;

    /// Logical negation.
    fn not(self) -> (r: Self)
        ensures
            r.bval() == !self.bval(),
    ;

    /// Duplicates the value: a cheap handle copy for ciphertext types.
    fn clone_value(&self) -> (r: Self)
        ensures
            r.bval() == self.bval(),
    ;
}

impl BooleanOps for bool {
    open spec fn bval(&self) -> bool {
        *self
    }

    fn and(self, other: Self) -> (r: Self) {
        self && other
    }

    fn or(self, other: Self) -> (r: Self) {
        self || other
    }

    fn xor(self, other: Self) -> (r: Self) {
        self != other
    }

    fn not(self) -> (r: Self) {
        !self
    }

    fn clone_value(&self) -> (r: Self) {
        *self
    }
}

/// A toy boolean algebra over the integers mod 2, with XOR as addition mod 2.
/// The boolean a value stands for is its parity.
#[derive(Clone, Copy, Debug, PartialEq, Eq, Structural)]
pub struct Mod2 {
    pub val: u8,
}

impl BooleanOps for Mod2 {
    open spec fn bval(&self) -> bool {
        self.val % 2 == 1
    }

    fn and(self, other: Self) -> (r: Self) {
        let x = self.val % 2;
        let y = other.val % 2;
        Mod2 { val: if x == 1 && y == 1 { 1 } else { 0 } }
    }

    fn or(self, other: Self) -> (r: Self) {
        let x = self.val % 2;
        let y = other.val % 2;
        Mod2 { val: if x == 1 || y == 1 { 1 } else { 0 } }
    }

    fn xor(self, other: Self) -> (r: Self) {
        Mod2 { val: (self.val % 2 + other.val % 2) % 2 }
    }

    fn not(self) -> (r: Self) {
        Mod2 { val: (self.val % 2 + 1) % 2 }
    }

    fn clone_value(&self) -> (r: Self) {
        Mod2 { val: self.val }
    }
}

/// The wire-value map a table stands for: wire `w` maps to the boolean model
/// of the value in slot `w`, for every filled slot.
pub open spec fn wire_map_of<T: BooleanOps>(table: Seq<Option<T>>) -> Map<usize, bool> {
    Map::new(
        |w: usize| w < table.len() && table[w as int] is Some,
        |w: usize| (table[w as int]->0).bval(),
    )
}

/// Whether each operand wire of a gate holds a value in the map.
pub open spec fn gate_ready(g: Gate, m: Map<usize, bool>) -> bool {
    match g {
        Gate::Unary { in_, .. } => m.dom().contains(in_),
        Gate::Binary { a, b, .. } => m.dom().contains(a) && m.dom().contains(b),
    }
}

/// The boolean a gate yields, given its operand values in the map.
pub open spec fn gate_value(g: Gate, m: Map<usize, bool>) -> bool {
    match g {
        Gate::Unary { op, in_, .. } => match op {
            UnaryOp::Not => !m[in_],
            UnaryOp::Copy => m[in_],
        },
        Gate::Binary { op, a, b, .. } => match op {
            BinaryOp::And => m[a] && m[b],
            BinaryOp::Or => m[a] || m[b],
            BinaryOp::Xor => m[a] != m[b],
        },
    }
}

/// The map after computing every gate of a list from the fixed pre-layer map
/// `m0` and merging the outputs into `m` in gate order.
pub open spec fn write_gates(
    gs: Seq<Gate>,
    m0: Map<usize, bool>,
    m: Map<usize, bool>,
) -> Map<usize, bool>
    decreases gs.len(),
{
    if gs.len() == 0 {
        m
    } else {
        write_gates(gs.drop_last(), m0, m).insert(gs.last().spec_out(), gate_value(gs.last(), m0))
    }
}

/// The map with the listed wires removed.
pub open spec fn remove_wires(m: Map<usize, bool>, ps: Seq<usize>) -> Map<usize, bool>
    decreases ps.len(),
{
    if ps.len() == 0 {
        m
    } else {
        remove_wires(m, ps.drop_last()).remove(ps.last())
    }
}

/// Every gate of the layer can be computed from the map, and writes a wire
/// inside the table.
pub open spec fn layer_ready(layer: Layer, m: Map<usize, bool>, wire_count: usize) -> bool {
    forall|j: int|
        0 <= j < layer.gates@.len() ==> gate_ready(#[trigger] layer.gates@[j], m)
            && layer.gates@[j].spec_out() < wire_count
}

/// One layer step: all gate outputs computed from the pre-layer map and
/// merged, then the layer's prune wires removed.
pub open spec fn apply_layer(layer: Layer, m: Map<usize, bool>) -> Map<usize, bool> {
    remove_wires(write_gates(layer.gates@, m, m), layer.prunes@)
}

/// Runs the layers in order over a wire-value map; `None` when some gate of
/// some layer cannot be computed.
pub open spec fn run_layers(
    layers: Seq<Layer>,
    m: Map<usize, bool>,
    wire_count: usize,
) -> Option<Map<usize, bool>>
    decreases layers.len(),
{
    if layers.len() == 0 {
        Some(m)
    } else if !layer_ready(layers.first(), m, wire_count) {
        None
    } else {
        run_layers(layers.drop_first(), apply_layer(layers.first(), m), wire_count)
    }
}

/// The first supplied input carrying this name, if any.
pub open spec fn find_input<T>(inputs: Seq<(String, Vec<T>)>, name: Seq<char>) -> Option<Vec<T>>
    decreases inputs.len(),
{
    if inputs.len() == 0 {
        None
    } else if inputs.first().0@ == name {
        Some(inputs.first().1)
    } else {
        find_input(inputs.drop_first(), name)
    }
}

/// The declared label has a matching supplied input with exactly its
/// declared number of bits.
pub open spec fn label_ok<T: BooleanOps>(
    lab: CircuitLabel,
    inputs: Seq<(String, Vec<T>)>,
) -> bool {
    match find_input(inputs, lab.name@) {
        Some(v) => v@.len() == lab.bits,
        None => false,
    }
}

/// The first `upto` bits of one label's values, placed at their absolute wire
/// indices.
pub open spec fn label_map<T: BooleanOps>(
    lab: CircuitLabel,
    vals: Seq<T>,
    upto: int,
) -> Map<usize, bool> {
    Map::new(
        |w: usize| lab.start <= w && (w as int) < lab.start + upto,
        |w: usize| vals[w - lab.start].bval(),
    )
}

/// The wire-value map seeded from the declared input labels, in label order
/// (later labels overwrite earlier ones where ranges overlap).
pub open spec fn seed_map<T: BooleanOps>(
    labels: Seq<CircuitLabel>,
    inputs: Seq<(String, Vec<T>)>,
) -> Map<usize, bool>
    decreases labels.len(),
{
    if labels.len() == 0 {
        Map::empty()
    } else {
        let lab = labels.last();
        seed_map(labels.drop_last(), inputs).union_prefer_right(
            label_map(lab, (find_input(inputs, lab.name@)->0)@, lab.bits as int),
        )
    }
}

proof fn lemma_write_gates_dom(gs: Seq<Gate>, m0: Map<usize, bool>, m: Map<usize, bool>)
    ensures
        forall|w: usize|
            m.dom().contains(w) ==> #[trigger] write_gates(gs, m0, m).dom().contains(w),
        forall|j: int|
            0 <= j < gs.len() ==> write_gates(gs, m0, m).dom().contains(
                (#[trigger] gs[j]).spec_out(),
            ),
    decreases gs.len(),
{
    if gs.len() > 0 {
        lemma_write_gates_dom(gs.drop_last(), m0, m);
        assert forall|w: usize| m.dom().contains(w) implies #[trigger] write_gates(
            gs,
            m0,
            m,
        ).dom().contains(w) by {
            assert(write_gates(gs.drop_last(), m0, m).dom().contains(w));
        }
        assert forall|j: int| 0 <= j < gs.len() implies write_gates(gs, m0, m).dom().contains(
            (#[trigger] gs[j]).spec_out(),
        ) by {
            if j < gs.len() - 1 {
                assert(gs.drop_last()[j] == gs[j]);
            } else {
                assert(gs.last() == gs[j]);
            }
        }
    }
}

proof fn lemma_remove_wires_dom(m: Map<usize, bool>, ps: Seq<usize>)
    ensures
        forall|w: usize|
            m.dom().contains(w) && !ps.contains(w) ==> #[trigger] remove_wires(
                m,
                ps,
            ).dom().contains(w),
    decreases ps.len(),
{
    if ps.len() > 0 {
        lemma_remove_wires_dom(m, ps.drop_last());
        assert forall|w: usize| m.dom().contains(w) && !ps.contains(w) implies #[trigger] remove_wires(
            m,
            ps,
        ).dom().contains(w) by {
            assert(!ps.drop_last().contains(w)) by {
                if ps.drop_last().contains(w) {
                    let q = choose|q: int|
                        0 <= q < ps.drop_last().len() && ps.drop_last()[q] == w;
                    assert(ps[q] == w);
                }
            }
            if ps.last() == w {
                assert(ps[ps.len() - 1] == w);
            }
            assert(remove_wires(m, ps.drop_last()).dom().contains(w));
        }
    }
}

proof fn lemma_run_from(
    inputs: Seq<usize>,
    layers: Seq<Layer>,
    wire_count: usize,
    k: int,
    m: Map<usize, bool>,
)
    requires
        0 <= k <= layers.len(),
        topo_valid(inputs, layers),
        layers_in_range(layers, wire_count),
        prune_timing_ok(layers),
        forall|w: usize|
            resolved_upto(inputs, layers, k).contains(w) && !layers_prunes(
                layers.take(k),
            ).contains(w) ==> #[trigger] m.dom().contains(w),
    ensures
        run_layers(layers.skip(k), m, wire_count) is Some,
        forall|w: usize|
            resolved_upto(inputs, layers, layers.len() as int).contains(w) && !layers_prunes(
                layers,
            ).contains(w) ==> #[trigger] (run_layers(layers.skip(k), m, wire_count)->0).dom().contains(
                w,
            ),
    decreases layers.len() - k,
{
    if k == layers.len() {
        assert(layers.skip(k) =~= Seq::<Layer>::empty());
        assert(layers.take(k) =~= layers);
    } else {
        let layer = layers[k];
        assert(layers.skip(k).first() == layers[k]);
        assert(layers.skip(k).drop_first() =~= layers.skip(k + 1));
        assert forall|j: int| 0 <= j < layer.gates@.len() implies gate_ready(
            #[trigger] layer.gates@[j],
            m,
        ) && layer.gates@[j].spec_out() < wire_count by {
            let g = layer.gates@[j];
            assert(gate_scheduled_ok(inputs, layers, k, g));
            assert(gate_in_range(g, wire_count));
            assert(gates_read_unpruned(layers[k].gates@, layers_prunes(layers.take(k))));
            assert forall|p: int| 0 <= p < g.spec_inputs().len() implies m.dom().contains(
                #[trigger] g.spec_inputs()[p],
            ) by {
                let w = g.spec_inputs()[p];
                assert(resolved_upto(inputs, layers, k).contains(w));
                assert(!layers_prunes(layers.take(k)).contains(w));
            }
            match g {
                Gate::Unary { in_, .. } => {
                    assert(g.spec_inputs()[0] == in_);
                },
                Gate::Binary { a, b, .. } => {
                    assert(g.spec_inputs()[0] == a);
                    assert(g.spec_inputs()[1] == b);
                },
            }
        }
        assert(layer_ready(layers.skip(k).first(), m, wire_count));
        let written = write_gates(layer.gates@, m, m);
        let m2 = apply_layer(layers.skip(k).first(), m);
        assert(m2 == remove_wires(written, layer.prunes@));
        lemma_write_gates_dom(layer.gates@, m, m);
        lemma_remove_wires_dom(written, layer.prunes@);
        assert(layers.take(k + 1).drop_last() =~= layers.take(k));
        assert(layers.take(k + 1).last() == layers[k]);
        assert forall|w: usize|
            resolved_upto(inputs, layers, k + 1).contains(w) && !layers_prunes(
                layers.take(k + 1),
            ).contains(w) implies #[trigger] m2.dom().contains(w) by {
            let all = layers_prunes(layers.take(k + 1));
            let base = layers_prunes(layers.take(k));
            assert(all == base + layer.prunes@);
            assert(!base.contains(w)) by {
                if base.contains(w) {
                    let q = choose|q: int| 0 <= q < base.len() && base[q] == w;
                    assert(all[q] == w);
                }
            }
            assert(!layer.prunes@.contains(w)) by {
                if layer.prunes@.contains(w) {
                    let q = choose|q: int| 0 <= q < layer.prunes@.len() && layer.prunes@[q] == w;
                    assert(all[base.len() + q] == w);
                }
            }
            assert(resolved_upto(inputs, layers, k + 1) =~= resolved_upto(
                inputs,
                layers,
                k,
            ).union(gates_outs(layers[k].gates@)));
            if resolved_upto(inputs, layers, k).contains(w) {
                assert(m.dom().contains(w));
                assert(written.dom().contains(w));
            } else {
                assert(gates_outs(layers[k].gates@).contains(w));
                let j = choose|j: int|
                    0 <= j < layers[k].gates@.len() && (#[trigger] layers[k].gates@[
                        j
                    ]).spec_out() == w;
                assert(written.dom().contains(layer.gates@[j].spec_out()));
            }
        }
        lemma_run_from(inputs, layers, wire_count, k + 1, m2);
    }
}

/// A well-formed assignment seeds every declared input wire: the seeded
/// map's domain covers the wires of every declared label, so
/// `lemma_sound_schedule_runs` applies to it.
pub proof fn lemma_seed_map_covers<T: BooleanOps>(
    labels: Seq<CircuitLabel>,
    inputs: Seq<(String, Vec<T>)>,
)
    requires
        forall|j: int| 0 <= j < labels.len() ==> label_ok(#[trigger] labels[j], inputs),
        forall|j: int|
            0 <= j < labels.len() ==> (#[trigger] labels[j]).start + labels[j].bits <= usize::MAX,
    ensures
        forall|w: usize|
            crate::label::labels_wires(labels).contains(w) ==> #[trigger] seed_map(
                labels,
                inputs,
            ).dom().contains(w),
    decreases labels.len(),
{
    if labels.len() > 0 {
        let prefix = labels.drop_last();
        assert forall|j: int| 0 <= j < prefix.len() implies label_ok(#[trigger] prefix[j], inputs)
            && prefix[j].start + prefix[j].bits <= usize::MAX by {
            assert(prefix[j] == labels[j]);
        }
        lemma_seed_map_covers(prefix, inputs);
        let lab = labels.last();
        assert(lab == labels[labels.len() - 1]);
        let lm = label_map(lab, (find_input(inputs, lab.name@)->0)@, lab.bits as int);
        assert forall|w: usize| crate::label::labels_wires(labels).contains(w) implies #[trigger] seed_map(
            labels,
            inputs,
        ).dom().contains(w) by {
            let ws = crate::label::labels_wires(labels);
            let base = crate::label::labels_wires(prefix);
            let q = choose|q: int| 0 <= q < ws.len() && ws[q] == w;
            if q < base.len() {
                assert(base[q] == w);
                assert(seed_map(prefix, inputs).dom().contains(w));
            } else {
                assert(crate::label::label_wires(lab)[q - base.len()] == w);
                assert(lab.start <= w && (w as int) < lab.start + lab.bits);
                assert(lm.dom().contains(w));
            }
        }
    }
}

/// A sound schedule always evaluates: over any wire-value map that covers
/// the primary input wires, a topologically valid, in-range, prune-timed
/// layering runs to completion, and every wire that was resolved and never
/// pruned — in particular every retained output wire some gate produced —
/// still holds a value in the final map.
pub proof fn lemma_sound_schedule_runs(
    inputs: Seq<usize>,
    layers: Seq<Layer>,
    wire_count: usize,
    m0: Map<usize, bool>,
)
    requires
        topo_valid(inputs, layers),
        layers_in_range(layers, wire_count),
        prune_timing_ok(layers),
        forall|w: usize| inputs.contains(w) ==> #[trigger] m0.dom().contains(w),
    ensures
        run_layers(layers, m0, wire_count) is Some,
        forall|w: usize|
            resolved_upto(inputs, layers, layers.len() as int).contains(w) && !layers_prunes(
                layers,
            ).contains(w) ==> #[trigger] (run_layers(layers, m0, wire_count)->0).dom().contains(w),
{
    assert(layers.take(0) =~= Seq::<Layer>::empty());
    assert(layers_prunes(layers.take(0)) =~= Seq::<usize>::empty());
    assert forall|w: usize|
        resolved_upto(inputs, layers, 0).contains(w) && !layers_prunes(
            layers.take(0),
        ).contains(w) implies #[trigger] m0.dom().contains(w) by {
        assert(inputs.contains(w));
    }
    lemma_run_from(inputs, layers, wire_count, 0, m0);
    assert(layers.skip(0) =~= layers);
}

/// The two assignments supply, for every declared label, values whose
/// boolean models agree bit for bit.
pub open spec fn inputs_correspond<T1: BooleanOps, T2: BooleanOps>(
    labels: Seq<CircuitLabel>,
    in1: Seq<(String, Vec<T1>)>,
    in2: Seq<(String, Vec<T2>)>,
) -> bool {
    forall|j: int|
        0 <= j < labels.len() ==> {
            let f1 = find_input(in1, (#[trigger] labels[j]).name@);
            let f2 = find_input(in2, labels[j].name@);
            &&& f1 is Some
            &&& f2 is Some
            &&& f1->0@.len() == f2->0@.len()
            &&& forall|i: int| 0 <= i < f1->0@.len() ==> f1->0@[i].bval() == f2->0@[i].bval()
        }
}

/// Generic-type agnosticism: the wire-value run is determined by the boolean
/// models of the supplied values alone, never by the value type. Two
/// assignments over different value types whose models agree bit for bit
/// seed the same wire-value map, so every layer, every gate and every output
/// of the run comes out the same.
pub proof fn lemma_evaluation_type_agnostic<T1: BooleanOps, T2: BooleanOps>(
    layers: Seq<Layer>,
    labels: Seq<CircuitLabel>,
    in1: Seq<(String, Vec<T1>)>,
    in2: Seq<(String, Vec<T2>)>,
    wire_count: usize,
)
    requires
        forall|j: int| 0 <= j < labels.len() ==> label_ok(#[trigger] labels[j], in1),
        inputs_correspond(labels, in1, in2),
    ensures
        seed_map(labels, in1) == seed_map(labels, in2),
        run_layers(layers, seed_map(labels, in1), wire_count) == run_layers(
            layers,
            seed_map(labels, in2),
            wire_count,
        ),
{
    lemma_seed_map_agnostic(labels, in1, in2);
}

proof fn lemma_seed_map_agnostic<T1: BooleanOps, T2: BooleanOps>(
    labels: Seq<CircuitLabel>,
    in1: Seq<(String, Vec<T1>)>,
    in2: Seq<(String, Vec<T2>)>,
)
    requires
        forall|j: int| 0 <= j < labels.len() ==> label_ok(#[trigger] labels[j], in1),
        inputs_correspond(labels, in1, in2),
    ensures
        seed_map(labels, in1) == seed_map(labels, in2),
    decreases labels.len(),
{
    if labels.len() > 0 {
        let prefix = labels.drop_last();
        assert forall|j: int| 0 <= j < prefix.len() implies label_ok(
            #[trigger] prefix[j],
            in1,
        ) by {
            assert(prefix[j] == labels[j]);
        }
        assert forall|j: int|
            0 <= j < prefix.len() implies {
            let f1 = find_input(in1, (#[trigger] prefix[j]).name@);
            let f2 = find_input(in2, prefix[j].name@);
            &&& f1 is Some
            &&& f2 is Some
            &&& f1->0@.len() == f2->0@.len()
            &&& forall|i: int| 0 <= i < f1->0@.len() ==> f1->0@[i].bval() == f2->0@[i].bval()
        } by {
            assert(prefix[j] == labels[j]);
            assert(inputs_correspond(labels, in1, in2));
            assert(0 <= labels.len() - 1);
        }
        lemma_seed_map_agnostic(prefix, in1, in2);
        let lab = labels.last();
        let v1 = find_input(in1, lab.name@)->0;
        let v2 = find_input(in2, lab.name@)->0;
        assert(lab == labels[labels.len() - 1]);
        assert(v1@.len() == lab.bits);
        assert(v2@.len() == lab.bits);
        assert forall|w: usize|
            lab.start <= w && (w as int) < lab.start + lab.bits implies label_map(
            lab,
            v1@,
            lab.bits as int,
        )[w] == label_map(lab, v2@, lab.bits as int)[w] by {
            assert(v1@[w - lab.start].bval() == v2@[w - lab.start].bval());
        }
        assert(label_map(lab, v1@, lab.bits as int) =~= label_map(lab, v2@, lab.bits as int));
    }
}

/// Every wire of one output label has a value in the final map.
pub open spec fn label_outputs_ok(lab: CircuitLabel, m: Map<usize, bool>) -> bool {
    forall|w: usize|
        lab.start <= w && (w as int) < lab.start + lab.bits ==> #[trigger] m.dom().contains(w)
}

/// Every declared output wire has a value in the final map.
pub open spec fn outputs_ok(labels: Seq<CircuitLabel>, m: Map<usize, bool>) -> bool {
    forall|j: int| 0 <= j < labels.len() ==> label_outputs_ok(#[trigger] labels[j], m)
}

/// The shape of `eval_gate_checked`'s result: the output wire paired with a
/// value standing for the computed boolean, or `None` exactly when an
/// operand is missing.
pub open spec fn gate_result_ok<T: BooleanOps>(
    g: Gate,
    m: Map<usize, bool>,
    r: Option<(usize, T)>,
) -> bool {
    match r {
        Some(p) => gate_ready(g, m) && p.0 == g.spec_out() && p.1.bval() == gate_value(g, m),
        None => !gate_ready(g, m),
    }
}

/// Writing one slot of the table inserts exactly that wire into its map.
proof fn lemma_wire_map_set<T: BooleanOps>(
    pre: Seq<Option<T>>,
    post: Seq<Option<T>>,
    w: usize,
    v: T,
)
    requires
        (w as int) < pre.len(),
        post == pre.update(w as int, Some(v)),
    ensures
        wire_map_of(post) =~= wire_map_of(pre).insert(w, v.bval()),
{
    let m1 = wire_map_of(post);
    let m2 = wire_map_of(pre).insert(w, v.bval());
    assert forall|u: usize| m1.dom().contains(u) implies m2.dom().contains(u) && m1[u]
        == m2[u] by {
        assert(u < post.len() && post[u as int] is Some);
        assert(m1[u] == (post[u as int]->0).bval());
        if u != w {
            assert(post[u as int] == pre[u as int]);
            assert(wire_map_of(pre).dom().contains(u));
            assert(m2[u] == wire_map_of(pre)[u]);
            assert(wire_map_of(pre)[u] == (pre[u as int]->0).bval());
        } else {
            assert(post[u as int] == Some(v));
            assert(m2[u] == v.bval());
        }
    }
    assert forall|u: usize| m2.dom().contains(u) implies m1.dom().contains(u) by {
        assert(m2.dom() == wire_map_of(pre).dom().insert(w));
        if u != w {
            assert(wire_map_of(pre).dom().contains(u));
            assert(u < pre.len() && pre[u as int] is Some);
            assert(post[u as int] == pre[u as int]);
        } else {
            assert(post[u as int] is Some);
        }
    }
    assert(m1 =~= m2);
}

/// Computes one gate's output value from the wire table, or `None` when an
/// operand slot is empty or out of range.
pub fn eval_gate_checked<T: BooleanOps>(g: &Gate, table: &Vec<Option<T>>) -> (r: Option<
    (usize, T),
>)
    ensures
        gate_result_ok(*g, wire_map_of(table@), r),
{
    match g {
        Gate::Unary { op, in_, out } => {
            if *in_ >= table.len() {
                return None;
            }
            match &table[*in_] {
                None => None,
                Some(v) => {
                    let val = match op {
                        UnaryOp::Not => v.clone_value().not(),
                        UnaryOp::Copy => v.clone_value(),
                    };
                    Some((*out, val))
                },
            }
        },
        Gate::Binary { op, a, b, out } => {
            if *a >= table.len() || *b >= table.len() {
                return None;
            }
            let av = match &table[*a] {
                None => { return None },
                Some(v) => v.clone_value(),
            };
            let bv = match &table[*b] {
                None => { return None },
                Some(v) => v.clone_value(),
            };
            let val = match op {
                BinaryOp::And => av.and(bv),
                BinaryOp::Or => av.or(bv),
                BinaryOp::Xor => av.xor(bv),
            };
            Some((*out, val))
        },
    }
}

/// Computes a whole layer's gate values from the fixed pre-layer wire table,
/// fanning the independent gate computations out across worker threads.
///
/// Relies on rayon's `par_iter().map(..).collect::<Vec<_>>()` over a slice:
/// it applies the closure to each element exactly once and collects the
/// results in the elements' order, so the result equals the sequential map
/// of `eval_gate_checked` over `gates`; the closure only calls that verified
/// function.
#[verifier::external_body]
fn par_eval_gates<T: BooleanOps + Send + Sync>(gates: &Vec<Gate>, table: &Vec<Option<T>>) -> (r:
    Vec<Option<(usize, T)>>)
    ensures
        r@.len() == gates@.len(),
        forall|u: int|
            0 <= u < gates@.len() ==> gate_result_ok(
                gates@[u],
                wire_map_of(table@),
                #[trigger] r@[u],
            ),
{
    gates.par_iter().map(|g| eval_gate_checked(g, table)).collect()
}

/// The first supplied input named `name`, if any.
fn find_assignment<'a, T>(inputs: &'a Vec<(String, Vec<T>)>, name: &String) -> (r: Option<
    &'a Vec<T>,
>)
    ensures
        match r {
            Some(v) => find_input(inputs@, name@) == Some(*v),
            None => find_input(inputs@, name@) is None,
        },
{
    let n = inputs.len();
    let mut i: usize = 0;
    proof {
        assert(inputs@.skip(0) =~= inputs@);
    }
    while i < n
        invariant
            n == inputs@.len(),
            i <= n,
            find_input(inputs@.skip(i as int), name@) == find_input(inputs@, name@),
        decreases n - i,
    {
        proof {
            assert(inputs@.skip(i as int).first() == inputs@[i as int]);
            assert(inputs@.skip(i as int).drop_first() =~= inputs@.skip(i + 1));
        }
        if inputs[i].0 == *name {
            return Some(&inputs[i].1);
        }
        i += 1;
    }
    proof {
        assert(inputs@.skip(n as int) =~= Seq::<(String, Vec<T>)>::empty());
    }
    None
}

impl LayeredCircuit {
    /// Evaluates the circuit: seeds a wire-value table from the named input
    /// assignment, runs every layer in order (each layer's gates computed
    /// from the table as it stood before the layer, in parallel, then merged
    /// and the layer's dead wires released), and reads the output labels'
    /// wire ranges into a named output assignment, in output-label order.
    ///
    /// The result is determined by the circuit and the boolean models of the
    /// supplied values alone, uniformly in `T`: each output bit's model
    /// equals the corresponding wire of `run_layers` over the seeded map.
    ///
    /// Fails with `InputLengthMismatch`, naming the first offending declared
    /// input, exactly when that input is missing from the assignment or
    /// carries a value count other than its declared bit width — this is
    /// checked for every declared input before any computation begins.
    /// Fails with `MissingWireValue` exactly when (the inputs being
    /// well-formed) a label's wire range exceeds the wire count, an operand
    /// slot is empty when a gate needs it, or an output wire ends up without
    /// a value — a broken schedule.
    #[verifier::loop_isolation(false)]
    #[verifier::rlimit(50)]
    pub fn eval<T: BooleanOps + Send + Sync>(&self, inputs: &Vec<(String, Vec<T>)>) -> (r: Result<
        Vec<(String, Vec<T>)>,
        CircuitError,
    >)
        ensures
            ({
                let m0 = seed_map(self.inputs@, inputs@);
                let run = run_layers(self.layers@, m0, self.wire_count);
                match r {
                    Ok(out) => {
                        &&& forall|j: int|
                            0 <= j < self.inputs@.len() ==> label_ok(
                                #[trigger] self.inputs@[j],
                                inputs@,
                            )
                        &&& crate::circuit::labels_fit(self.inputs@, self.wire_count)
                        &&& run is Some
                        &&& crate::circuit::labels_fit(self.outputs@, self.wire_count)
                        &&& outputs_ok(self.outputs@, run->0)
                        &&& out@.len() == self.outputs@.len()
                        &&& forall|j: int|
                            0 <= j < out@.len() ==> (#[trigger] out@[j]).0@
                                == self.outputs@[j].name@ && out@[j].1@.len()
                                == self.outputs@[j].bits
                        &&& forall|j: int, i: int|
                            0 <= j < out@.len() && 0 <= i < out@[j].1@.len() ==> (#[trigger] out@[
                                j
                            ].1@[i]).bval() == run->0[((self.outputs@[j].start + i) as usize)]
                    },
                    Err(e) => match e {
                        CircuitError::InputLengthMismatch { name } => exists|j: int|
                            {
                                &&& 0 <= j < self.inputs@.len()
                                &&& !label_ok(#[trigger] self.inputs@[j], inputs@)
                                &&& forall|t: int|
                                    0 <= t < j ==> label_ok(#[trigger] self.inputs@[t], inputs@)
                                &&& name@ == self.inputs@[j].name@
                            },
                        CircuitError::MissingWireValue => {
                            &&& forall|j: int|
                                0 <= j < self.inputs@.len() ==> label_ok(
                                    #[trigger] self.inputs@[j],
                                    inputs@,
                                )
                            &&& !{
                                &&& crate::circuit::labels_fit(self.inputs@, self.wire_count)
                                &&& run is Some
                                &&& crate::circuit::labels_fit(self.outputs@, self.wire_count)
                                &&& outputs_ok(self.outputs@, run->0)
                            }
                        },
                        _ => false,
                    },
                }
            }),
    {
        let wire_count = self.wire_count;

        // Validate every declared input before any computation begins.
        let label_count = self.inputs.len();
        let mut j: usize = 0;
        while j < label_count
            invariant
                label_count == self.inputs@.len(),
                j <= label_count,
                forall|t: int| 0 <= t < j ==> label_ok(#[trigger] self.inputs@[t], inputs@),
            decreases label_count - j,
        {
            let lab = &self.inputs[j];
            let ok: bool = match find_assignment(inputs, &lab.name) {
                None => false,
                Some(v) => v.len() == lab.bits,
            };
            if !ok {
                return Err(CircuitError::InputLengthMismatch { name: lab.name.clone() });
            }
            j += 1;
        }

        // Seed the wire-value table with each input bit at its absolute wire
        // index.
        let mut table: Vec<Option<T>> = Vec::new();
        let mut w0: usize = 0;
        while w0 < wire_count
            invariant
                w0 <= wire_count,
                table@.len() == w0,
                forall|t: int| 0 <= t < w0 ==> table@[t] is None,
            decreases wire_count - w0,
        {
            table.push(None);
            w0 += 1;
        }
        proof {
            assert(self.inputs@.take(0) =~= Seq::<CircuitLabel>::empty());
            assert(wire_map_of(table@) =~= seed_map(self.inputs@.take(0), inputs@));
        }
        let mut j2: usize = 0;
        while j2 < label_count
            invariant
                label_count == self.inputs@.len(),
                j2 <= label_count,
                table@.len() == wire_count,
                forall|t: int| 0 <= t < label_count ==> label_ok(#[trigger] self.inputs@[t], inputs@),
                forall|t: int|
                    0 <= t < j2 ==> (#[trigger] self.inputs@[t]).start + self.inputs@[t].bits
                        <= wire_count,
                wire_map_of(table@) =~= seed_map(self.inputs@.take(j2 as int), inputs@),
            decreases label_count - j2,
        {
            let lab = &self.inputs[j2];
            let start = lab.start;
            let bits = lab.bits;
            if bits > wire_count || start > wire_count - bits {
                proof {
                    assert(self.inputs@[j2 as int].start + self.inputs@[j2 as int].bits
                        > wire_count);
                    assert(!crate::circuit::labels_fit(self.inputs@, self.wire_count));
                }
                return Err(CircuitError::MissingWireValue);
            }
            let vals = match find_assignment(inputs, &lab.name) {
                Some(v) => v,
                None => {
                    proof {
                        assert(label_ok(self.inputs@[j2 as int], inputs@));
                    }
                    return Err(CircuitError::MissingWireValue);
                },
            };
            let ghost base = seed_map(self.inputs@.take(j2 as int), inputs@);
            let mut i: usize = 0;
            while i < bits
                invariant
                    i <= bits,
                    start == self.inputs@[j2 as int].start,
                    bits == self.inputs@[j2 as int].bits,
                    j2 < self.inputs@.len(),
                    start + bits <= wire_count,
                    table@.len() == wire_count,
                    vals@.len() == bits,
                    find_input(inputs@, self.inputs@[j2 as int].name@) == Some(*vals),
                    wire_map_of(table@) =~= base.union_prefer_right(
                        label_map(self.inputs@[j2 as int], vals@, i as int),
                    ),
                decreases bits - i,
            {
                let v = vals[i].clone_value();
                let ghost vb = v.bval();
                let ghost pre_table = table@;
                table[start + i] = Some(v);
                proof {
                    let labs = self.inputs@[j2 as int];
                    lemma_wire_map_set(
                        pre_table,
                        table@,
                        (start + i) as usize,
                        table@[start + i as int]->0,
                    );
                    assert(vb == vals@[i as int].bval());
                    assert(label_map(labs, vals@, i + 1).dom() =~= label_map(
                        labs,
                        vals@,
                        i as int,
                    ).dom().insert((start + i) as usize));
                    assert(wire_map_of(table@) =~= base.union_prefer_right(
                        label_map(labs, vals@, i + 1),
                    ));
                }
                i += 1;
            }
            proof {
                assert(self.inputs@.take(j2 + 1).drop_last() =~= self.inputs@.take(j2 as int));
                assert(self.inputs@.take(j2 + 1).last() == self.inputs@[j2 as int]);
                assert(wire_map_of(table@) =~= seed_map(self.inputs@.take(j2 + 1), inputs@));
            }
            j2 += 1;
        }
        proof {
            assert(self.inputs@.take(label_count as int) =~= self.inputs@);
        }
        let ghost m0 = seed_map(self.inputs@, inputs@);
        proof {
            assert(self.layers@.skip(0) =~= self.layers@);
        }

        // Run the layers: each layer's gates are computed from the table as
        // it stood before the layer, merged, and the layer's prunes released.
        let layer_count = self.layers.len();
        let mut k: usize = 0;
        while k < layer_count
            invariant
                layer_count == self.layers@.len(),
                k <= layer_count,
                table@.len() == wire_count,
                run_layers(self.layers@.skip(k as int), wire_map_of(table@), wire_count)
                    == run_layers(self.layers@, m0, wire_count),
            decreases layer_count - k,
        {
            let ghost mk = wire_map_of(table@);
            proof {
                assert(self.layers@.skip(k as int).first() == self.layers@[k as int]);
                assert(self.layers@.skip(k as int).drop_first() =~= self.layers@.skip(k + 1));
            }
            let layer = &self.layers[k];
            let assignments = par_eval_gates(&layer.gates, &table);
            let merge_count = assignments.len();
            proof {
                assert(self.layers@[k as int].gates@.take(0) =~= Seq::<Gate>::empty());
            }
            let mut t: usize = 0;
            while t < merge_count
                invariant
                    t <= merge_count,
                    merge_count == assignments@.len(),
                    merge_count == self.layers@[k as int].gates@.len(),
                    k < self.layers@.len(),
                    table@.len() == wire_count,
                    forall|u: int|
                        0 <= u < merge_count ==> gate_result_ok(
                            self.layers@[k as int].gates@[u],
                            mk,
                            #[trigger] assignments@[u],
                        ),
                    forall|u: int|
                        0 <= u < t ==> gate_ready(
                            #[trigger] self.layers@[k as int].gates@[u],
                            mk,
                        ) && self.layers@[k as int].gates@[u].spec_out() < wire_count,
                    wire_map_of(table@) =~= write_gates(
                        self.layers@[k as int].gates@.take(t as int),
                        mk,
                        mk,
                    ),
                decreases merge_count - t,
            {
                let keep: Option<(usize, T)> = match &assignments[t] {
                    None => None,
                    Some(pair) => {
                        if pair.0 >= wire_count {
                            None
                        } else {
                            Some((pair.0, pair.1.clone_value()))
                        }
                    },
                };
                match keep {
                    None => {
                        proof {
                            assert(!layer_ready(self.layers@[k as int], mk, wire_count));
                            assert(run_layers(self.layers@, m0, wire_count) is None);
                        }
                        return Err(CircuitError::MissingWireValue);
                    },
                    Some((w, val)) => {
                        table[w] = Some(val);
                        proof {
                            let gs = self.layers@[k as int].gates@;
                            assert(gs.take(t + 1).drop_last() =~= gs.take(t as int));
                            assert(gs.take(t + 1).last() == gs[t as int]);
                            assert(wire_map_of(table@) =~= write_gates(gs.take(t + 1), mk, mk));
                        }
                    },
                }
                t += 1;
            }
            proof {
                assert(self.layers@[k as int].gates@.take(merge_count as int) =~= self.layers@[k
                    as int].gates@);
                assert(layer_ready(self.layers@[k as int], mk, wire_count));
                assert(self.layers@[k as int].prunes@.take(0) =~= Seq::<usize>::empty());
            }
            // Release the wires that die after this layer.
            let prune_count = layer.prunes.len();
            let mut t2: usize = 0;
            while t2 < prune_count
                invariant
                    t2 <= prune_count,
                    prune_count == self.layers@[k as int].prunes@.len(),
                    k < self.layers@.len(),
                    table@.len() == wire_count,
                    wire_map_of(table@) =~= remove_wires(
                        write_gates(self.layers@[k as int].gates@, mk, mk),
                        self.layers@[k as int].prunes@.take(t2 as int),
                    ),
                decreases prune_count - t2,
            {
                let p = layer.prunes[t2];
                if p < wire_count {
                    table[p] = None;
                }
                proof {
                    let ps = self.layers@[k as int].prunes@;
                    assert(ps.take(t2 + 1).drop_last() =~= ps.take(t2 as int));
                    assert(ps.take(t2 + 1).last() == ps[t2 as int]);
                    assert(wire_map_of(table@) =~= remove_wires(
                        write_gates(self.layers@[k as int].gates@, mk, mk),
                        ps.take(t2 + 1),
                    ));
                }
                t2 += 1;
            }
            proof {
                assert(self.layers@[k as int].prunes@.take(prune_count as int) =~= self.layers@[k
                    as int].prunes@);
                assert(wire_map_of(table@) =~= apply_layer(self.layers@[k as int], mk));
            }
            k += 1;
        }
        proof {
            assert(self.layers@.skip(layer_count as int) =~= Seq::<Layer>::empty());
        }
        let ghost mfin = wire_map_of(table@);

        // Read each output label's wire range out of the table.
        let out_count = self.outputs.len();
        let mut out: Vec<(String, Vec<T>)> = Vec::new();
        let mut j3: usize = 0;
        while j3 < out_count
            invariant
                out_count == self.outputs@.len(),
                j3 <= out_count,
                table@.len() == wire_count,
                mfin == wire_map_of(table@),
                out@.len() == j3,
                forall|q: int|
                    0 <= q < j3 ==> (#[trigger] self.outputs@[q]).start + self.outputs@[q].bits
                        <= wire_count && label_outputs_ok(self.outputs@[q], mfin),
                forall|q: int|
                    0 <= q < j3 ==> (#[trigger] out@[q]).0@ == self.outputs@[q].name@
                        && out@[q].1@.len() == self.outputs@[q].bits,
                forall|q: int, i: int|
                    0 <= q < j3 && 0 <= i < out@[q].1@.len() ==> (#[trigger] out@[q].1@[i]).bval()
                        == mfin[((self.outputs@[q].start + i) as usize)],
            decreases out_count - j3,
        {
            let lab = &self.outputs[j3];
            let start = lab.start;
            let bits = lab.bits;
            if bits > wire_count || start > wire_count - bits {
                proof {
                    assert(self.outputs@[j3 as int].start + self.outputs@[j3 as int].bits
                        > wire_count);
                    assert(!crate::circuit::labels_fit(self.outputs@, self.wire_count));
                }
                return Err(CircuitError::MissingWireValue);
            }
            let mut vals: Vec<T> = Vec::new();
            let mut i: usize = 0;
            while i < bits
                invariant
                    i <= bits,
                    start == self.outputs@[j3 as int].start,
                    bits == self.outputs@[j3 as int].bits,
                    j3 < self.outputs@.len(),
                    start + bits <= wire_count,
                    table@.len() == wire_count,
                    mfin == wire_map_of(table@),
                    vals@.len() == i,
                    forall|w: usize|
                        start <= w && (w as int) < start + i ==> #[trigger] mfin.dom().contains(w),
                    forall|q: int|
                        0 <= q < i ==> (#[trigger] vals@[q]).bval() == mfin[(
                        (start + q) as usize)],
                decreases bits - i,
            {
                match &table[start + i] {
                    None => {
                        proof {
                            assert(!mfin.dom().contains((start + i) as usize));
                            assert(!label_outputs_ok(self.outputs@[j3 as int], mfin));
                            assert(!outputs_ok(self.outputs@, mfin));
                        }
                        return Err(CircuitError::MissingWireValue);
                    },
                    Some(v) => {
                        vals.push(v.clone_value());
                        proof {
                            assert(mfin.dom().contains(((start + i) as usize)));
                            assert(vals@[i as int].bval() == mfin[((start + i) as usize)]);
                            assert forall|w: usize| start <= w && (w as int) < start + i
                                + 1 implies #[trigger] mfin.dom().contains(w) by {
                                if (w as int) == start + i {
                                    assert(w == (start + i) as usize);
                                }
                            }
                        }
                    },
                }
                i += 1;
            }
            proof {
                assert(label_outputs_ok(self.outputs@[j3 as int], mfin));
            }
            out.push((lab.name.clone(), vals));
            j3 += 1;
        }
        Ok(out)
    }
}

} // verus!
