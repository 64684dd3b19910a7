use vstd::prelude::*;
use vstd::multiset::Multiset;
use vstd::seq_lib::lemma_multiset_commutative;

use crate::error::CircuitError;

verus! {

/// A named, contiguous range of wires `[start, start + bits)`, used for both
/// circuit inputs and circuit outputs.
#[derive(Debug)]
pub struct CircuitLabel {
    pub name: String,
    pub start: usize,
    pub bits: usize,
}

/// Labels ordered by starting wire index, ascending.
pub open spec fn labels_sorted(labels: Seq<CircuitLabel>) -> bool {
    forall|i: int, j: int|
        0 <= i < j < labels.len() ==> #[trigger] labels[i].start <= #[trigger] labels[j].start
}

/// The (name, starting index) pairs a label list carries.
pub open spec fn label_pairs(labels: Seq<CircuitLabel>) -> Seq<(String, usize)> {
    labels.map_values(|l: CircuitLabel| (l.name, l.start))
}

/// What resolving `pairs` against `widths` yields: exactly the named ranges
/// of `pairs`, reordered by starting wire index ascending (recovering the
/// original declaration order), zipped positionally against `widths`.
pub open spec fn labels_resolved(
    pairs: Seq<(String, usize)>,
    widths: Seq<usize>,
    labels: Seq<CircuitLabel>,
) -> bool {
    &&& labels.len() == widths.len()
    &&& labels.len() == pairs.len()
    &&& forall|j: int| 0 <= j < labels.len() ==> #[trigger] labels[j].bits == widths[j]
    &&& labels_sorted(labels)
    &&& label_pairs(labels).to_multiset() == pairs.to_multiset()
}

/// The wires of one label: `start`, `start + 1`, ..., `start + bits - 1`.
pub open spec fn label_wires(l: CircuitLabel) -> Seq<usize> {
    Seq::new(l.bits as nat, |i: int| (l.start + i) as usize)
}

/// The wires of a label list, label ranges concatenated in label order.
pub open spec fn labels_wires(labels: Seq<CircuitLabel>) -> Seq<usize>
    decreases labels.len(),
{
    if labels.len() == 0 {
        Seq::empty()
    } else {
        labels_wires(labels.drop_last()) + label_wires(labels.last())
    }
}

/// Inserting an element anywhere in a sequence adds it, and nothing else, to
/// the sequence's multiset.
proof fn lemma_to_multiset_insert<A>(s: Seq<A>, i: int, x: A)
    requires
        0 <= i <= s.len(),
    ensures
        s.insert(i, x).to_multiset() =~= s.to_multiset().insert(x),
{
    broadcast use vstd::seq_lib::group_to_multiset_ensures;

    let prefix = s.subrange(0, i);
    let suffix = s.subrange(i, s.len() as int);
    assert(s.insert(i, x) =~= prefix + (seq![x] + suffix));
    assert(seq![x] =~= Seq::<A>::empty().push(x));
    lemma_multiset_commutative(prefix, seq![x] + suffix);
    lemma_multiset_commutative(seq![x], suffix);
    lemma_multiset_commutative(prefix, suffix);
    assert(prefix + suffix =~= s);
    assert(Seq::<A>::empty().to_multiset() =~= Multiset::<A>::empty());
}

/// Turns name-to-starting-wire pairs plus an ordered bit-width list into
/// ordered labels: pairs are sorted by starting wire index ascending (which
/// recovers declaration order, the upstream format recording only a start
/// index per name) and zipped positionally against the widths. Fails when
/// the name count and the width count differ.
pub fn io_labels(name_to_index: &Vec<(String, usize)>, widths: &Vec<usize>) -> (r: Result<
    Vec<CircuitLabel>,
    CircuitError,
>)
    ensures
        match r {
            Ok(labels) => labels_resolved(name_to_index@, widths@, labels@),
            Err(e) => {
                &&& e matches CircuitError::LabelWidthMismatch
                &&& name_to_index@.len() != widths@.len()
            },
        },
{
    if name_to_index.len() != widths.len() {
        return Err(CircuitError::LabelWidthMismatch);
    }
    let n = name_to_index.len();
    let mut ordered: Vec<(String, usize)> = Vec::new();
    proof {
        assert(name_to_index@.take(0) =~= Seq::<(String, usize)>::empty());
        assert(ordered@.to_multiset() =~= name_to_index@.take(0).to_multiset());
    }
    for i in 0..n
        invariant
            n == name_to_index@.len(),
            ordered@.len() == i,
            forall|p: int, q: int|
                0 <= p < q < ordered@.len() ==> #[trigger] ordered@[p].1 <= #[trigger] ordered@[q].1,
            ordered@.to_multiset() == name_to_index@.take(i as int).to_multiset(),
    {
        let name = name_to_index[i].0.clone();
        let start = name_to_index[i].1;
        let mut pos: usize = 0;
        while pos < ordered.len() && ordered[pos].1 <= start
            invariant
                pos <= ordered@.len(),
                forall|t: int| 0 <= t < pos ==> #[trigger] ordered@[t].1 <= start,
            decreases ordered@.len() - pos,
        {
            pos += 1;
        }
        proof {
            broadcast use vstd::seq_lib::group_to_multiset_ensures;

            lemma_to_multiset_insert(ordered@, pos as int, (name, start));
            assert((name, start) == name_to_index@[i as int]);
            assert(name_to_index@.take(i + 1) =~= name_to_index@.take(i as int).push(
                name_to_index@[i as int],
            ));
        }
        let ghost pre = ordered@;
        ordered.insert(pos, (name, start));
        proof {
            assert forall|p: int, q: int|
                0 <= p < q < ordered@.len() implies #[trigger] ordered@[p].1
                <= #[trigger] ordered@[q].1 by {
                assert(ordered@ =~= pre.subrange(0, pos as int) + seq![(name, start)]
                    + pre.subrange(pos as int, pre.len() as int));
            }
        }
    }
    proof {
        assert(name_to_index@.take(n as int) =~= name_to_index@);
    }
    let ghost sorted_pairs = ordered@;
    let mut labels: Vec<CircuitLabel> = Vec::new();
    for k in 0..n
        invariant
            n == widths@.len(),
            sorted_pairs.len() == n,
            ordered@ =~= sorted_pairs.skip(k as int),
            labels@.len() == k,
            forall|j: int|
                0 <= j < k ==> {
                    &&& (#[trigger] labels@[j]).bits == widths@[j]
                    &&& labels@[j].name == sorted_pairs[j].0
                    &&& labels@[j].start == sorted_pairs[j].1
                },
    {
        let pair = ordered.remove(0);
        proof {
            assert(pair == sorted_pairs[k as int]);
            assert(ordered@ =~= sorted_pairs.skip(k + 1));
        }
        labels.push(CircuitLabel { name: pair.0, start: pair.1, bits: widths[k] });
    }
    proof {
        assert(label_pairs(labels@) =~= sorted_pairs);
        assert(labels_sorted(labels@));
    }
    Ok(labels)
}

/// Flattens a label list into the full list of wires it covers, in label
/// order.
pub fn io_wires(labels: &Vec<CircuitLabel>) -> (r: Vec<usize>)
    requires
        forall|j: int|
            0 <= j < labels@.len() ==> (#[trigger] labels@[j]).start + labels@[j].bits
                <= usize::MAX,
    ensures
        r@ == labels_wires(labels@),
{
    let mut wires: Vec<usize> = Vec::new();
    let n = labels.len();
    for j in 0..n
        invariant
            n == labels@.len(),
            forall|t: int|
                0 <= t < n ==> (#[trigger] labels@[t]).start + labels@[t].bits <= usize::MAX,
            wires@ == labels_wires(labels@.take(j as int)),
    {
        let start = labels[j].start;
        let bits = labels[j].bits;
        let ghost before = wires@;
        for i in 0..bits
            invariant
                j < labels@.len(),
                start == labels@[j as int].start,
                bits == labels@[j as int].bits,
                start + bits <= usize::MAX,
                wires@ =~= before + label_wires(labels@[j as int]).take(i as int),
        {
            wires.push(start + i);
            proof {
                assert(label_wires(labels@[j as int]).take(i + 1) =~= label_wires(
                    labels@[j as int],
                ).take(i as int).push((start + i) as usize));
            }
        }
        proof {
            assert(label_wires(labels@[j as int]).take(bits as int) =~= label_wires(
                labels@[j as int],
            ));
            assert(labels@.take(j + 1).drop_last() =~= labels@.take(j as int));
            assert(labels@.take(j + 1).last() == labels@[j as int]);
            assert(wires@ =~= labels_wires(labels@.take(j + 1)));
        }
    }
    proof {
        assert(labels@.take(n as int) =~= labels@);
    }
    wires
}

} // verus!
