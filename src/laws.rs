use vstd::prelude::*;

use crate::node::{NodeID, NodeParamIndex};
use crate::node_graph::{Evaluation, GetNodeOutputsError, NodeGraph};

verus! {

/// Node `id` appears exactly once in `log`.
pub open spec fn evaluated_once<V>(log: Seq<Evaluation<V>>, id: NodeID) -> bool {
    exists|q: int|
        0 <= q < log.len() && (#[trigger] log[q]).0 == id && forall|q2: int|
            0 <= q2 < log.len() && (#[trigger] log[q2]).0 == id ==> q2 == q
}

/// Node `id` does not appear in `log`.
pub open spec fn never_evaluated<V>(log: Seq<Evaluation<V>>, id: NodeID) -> bool {
    forall|q: int| 0 <= q < log.len() ==> (#[trigger] log[q]).0 != id
}

/// A read that ends with node `id` evaluated evaluated it exactly once, last.
proof fn lemma_last_evaluated_once<V: Clone, N>(
    g0: NodeGraph<V, N>,
    g1: NodeGraph<V, N>,
    id: NodeID,
    busy: Seq<NodeID>,
)
    requires
        g0.evaluated(g1, busy),
        g0.new_evaluations(g1).len() > 0,
        g0.new_evaluations(g1).last().0 == id,
    ensures
        evaluated_once(g0.new_evaluations(g1), id),
{
    let log = g0.new_evaluations(g1);
    let last = log.len() - 1;
    assert forall|q2: int| 0 <= q2 < log.len() && (#[trigger] log[q2]).0 == id implies q2 == last
        by {
        if q2 < last {
            assert(log[q2].0 != log[last].0);
        }
    }
    assert(log[last].0 == id);
}

/// Reading a node twice with no change to the graph in between: the second read hands back
/// the outputs of the first and changes nothing, and over the two reads the node's `eval`
/// runs once if it had nothing cached before, and not at all otherwise.
pub proof fn law_second_read_is_cached<V: Clone, N>(
    g0: NodeGraph<V, N>,
    g1: NodeGraph<V, N>,
    g2: NodeGraph<V, N>,
    id: NodeID,
    v1: Seq<V>,
    r2: Result<Seq<V>, GetNodeOutputsError>,
)
    requires
        g0.wf(),
        g0.read_outcome(g1, id, Ok(v1)),
        g1.read_outcome(g2, id, r2),
    ensures
        r2 == Ok::<Seq<V>, GetNodeOutputsError>(v1),
        g2 == g1,
        g0.cached(id) is None ==> evaluated_once(g0.new_evaluations(g2), id),
        g0.cached(id) is Some ==> never_evaluated(g0.new_evaluations(g2), id),
{
    assert(g0.has_node(id));
    assert(g1.has_node(id));
    if g0.cached(id) is None {
        lemma_last_evaluated_once(g0, g1, id, Seq::empty());
    } else {
        assert(g0.new_evaluations(g2).len() == 0);
    }
}

/// Relinking an input and reading its node: after `disconnect(id, port)` and
/// `connect(src, src_index, id, port)`, the next successful read evaluates `id` exactly once,
/// hands it a copy of the current output `src_index` of `src` on that port, and returns what
/// that evaluation produced.
pub proof fn law_relinked_input_is_read_again<V: Clone, N>(
    g0: NodeGraph<V, N>,
    g1: NodeGraph<V, N>,
    g2: NodeGraph<V, N>,
    g3: NodeGraph<V, N>,
    id: NodeID,
    port: usize,
    src: NodeID,
    src_index: usize,
    v: Seq<V>,
)
    requires
        g0.wf(),
        g0.disconnect_outcome(g1, id, port, Ok(())),
        g1.connect_outcome(g2, src, src_index, id, port, Ok(())),
        g2.read_outcome(g3, id, Ok(v)),
    ensures
        evaluated_once(g2.new_evaluations(g3), id),
        g2.new_evaluations(g3).last().0 == id,
        g2.new_evaluations(g3).last().2 == Ok::<Seq<V>, String>(v),
        g3.cached(src) is Some,
        src_index < g3.cached(src).unwrap().len(),
        g2.new_evaluations(g3).last().1[port as int] is Some,
        cloned(
            g3.cached(src).unwrap()[src_index as int],
            g2.new_evaluations(g3).last().1[port as int].unwrap(),
        ),
{
    assert(g1.has_input(id, port as int));
    assert(g2.is_path(seq![id]));
    assert(g2.depends_on(id, id));
    assert(g2.cached(id) is None);
    let log = g2.new_evaluations(g3);
    lemma_last_evaluated_once(g2, g3, id, Seq::empty());
    let e = log[log.len() - 1];
    assert(g3.inputs_match(e.0, e.1));
    assert(g2.source(id, port as int) == Some(NodeParamIndex(src, src_index)));
    assert(g3.source(id, port as int) == g2.source(id, port as int));
    assert(g3.input_types(id) == g2.input_types(id));
    assert(g3.slot_matches(id, port as int, e.1[port as int]));
}

/// Fan-out: when one output port feeds inputs of several nodes, every evaluation made by a
/// read hands each of those inputs a copy of that same output.
pub proof fn law_fan_out_reads_one_value<V: Clone, N>(
    g0: NodeGraph<V, N>,
    g1: NodeGraph<V, N>,
    id: NodeID,
    r: Result<Seq<V>, GetNodeOutputsError>,
    q1: int,
    port1: int,
    q2: int,
    port2: int,
)
    requires
        g0.wf(),
        g0.read_outcome(g1, id, r),
        0 <= q1 < g0.new_evaluations(g1).len(),
        0 <= q2 < g0.new_evaluations(g1).len(),
        g1.has_input(g0.new_evaluations(g1)[q1].0, port1),
        g1.has_input(g0.new_evaluations(g1)[q2].0, port2),
        g1.source(g0.new_evaluations(g1)[q1].0, port1) is Some,
        g1.source(g0.new_evaluations(g1)[q1].0, port1) == g1.source(
            g0.new_evaluations(g1)[q2].0,
            port2,
        ),
    ensures
        ({
            let src = g1.source(g0.new_evaluations(g1)[q1].0, port1).unwrap();
            let value = g1.cached(src.0).unwrap()[src.1 as int];
            let slot1 = g0.new_evaluations(g1)[q1].1[port1];
            let slot2 = g0.new_evaluations(g1)[q2].1[port2];
            &&& g1.cached(src.0) is Some
            &&& slot1 is Some
            &&& slot2 is Some
            &&& cloned(value, slot1.unwrap())
            &&& cloned(value, slot2.unwrap())
        }),
{
    let log = g0.new_evaluations(g1);
    assert(g0.has_node(id));
    let e1 = log[q1];
    let e2 = log[q2];
    assert(g1.inputs_match(e1.0, e1.1));
    assert(g1.inputs_match(e2.0, e2.1));
    assert(g1.slot_matches(e1.0, port1, e1.1[port1]));
    assert(g1.slot_matches(e2.0, port2, e2.1[port2]));
}

/// Along a path of nodes with nothing cached, a read that evaluated the first node evaluated
/// each next one at an earlier position.
proof fn lemma_path_positions<V: Clone, N>(
    g0: NodeGraph<V, N>,
    g1: NodeGraph<V, N>,
    busy: Seq<NodeID>,
    w: Seq<NodeID>,
    q0: int,
    k: int,
)
    requires
        g0.wf(),
        g0.evaluated(g1, busy),
        g0.is_path(w),
        forall|i: int| 0 <= i < w.len() ==> g0.cached(#[trigger] w[i]) is None,
        0 <= q0 < g0.new_evaluations(g1).len(),
        g0.new_evaluations(g1)[q0].0 == w[0],
        0 <= k < w.len(),
    ensures
        exists|q: int|
            0 <= q <= q0 - k && (#[trigger] g0.new_evaluations(g1)[q]).0 == w[k],
    decreases k,
{
    let log = g0.new_evaluations(g1);
    if k > 0 {
        lemma_path_positions(g0, g1, busy, w, q0, k - 1);
        let q = choose|q: int| 0 <= q <= q0 - (k - 1) && (#[trigger] log[q]).0 == w[k - 1];
        assert(g0.feeds(w[(k - 1) + 1], w[k - 1]));
        let port = choose|port: int|
            #![trigger g0.source(w[k - 1], port)]
            g0.has_input(w[k - 1], port) && g0.source(w[k - 1], port) is Some && g0.source(
                w[k - 1],
                port,
            ).unwrap().0 == w[k];
        assert(g0.linked_ready(log, q, port));
        assert(g0.source_before(log, q, port));
        assert(g0.cached(w[k]) is None);
        let q2 = choose|q2: int| 0 <= q2 < q && (#[trigger] log[q2]).0 == w[k];
        assert(log[q2].0 == w[k]);
    } else {
        assert(log[q0].0 == w[0]);
    }
}

/// A read of a node from which links lead, upstream, into a cycle of nodes with nothing cached
/// never succeeds.
pub proof fn law_cycle_read_fails<V: Clone, N>(
    g0: NodeGraph<V, N>,
    g1: NodeGraph<V, N>,
    id: NodeID,
    r: Result<Seq<V>, GetNodeOutputsError>,
    w: Seq<NodeID>,
    j: int,
)
    requires
        g0.wf(),
        g0.read_outcome(g1, id, r),
        g0.is_path(w),
        w[0] == id,
        0 <= j < w.len() - 1,
        w[j] == w.last(),
        forall|i: int| 0 <= i < w.len() ==> g0.cached(#[trigger] w[i]) is None,
    ensures
        r is Err,
{
    if r is Ok {
        assert(g0.cached(w[0]) is None);
        assert(g0.has_node(id));
        let log = g0.new_evaluations(g1);
        let q0 = log.len() - 1;
        lemma_path_positions(g0, g1, Seq::empty(), w, q0, j);
        let pj = choose|q: int| 0 <= q <= q0 - j && (#[trigger] log[q]).0 == w[j];
        let tail = w.subrange(j, w.len() as int);
        assert forall|k: int| 0 <= k < tail.len() - 1
            implies #[trigger] g0.feeds(tail[k + 1], tail[k]) by {
            assert(g0.feeds(w[(j + k) + 1], w[j + k]));
        }
        assert forall|i: int| 0 <= i < tail.len() implies g0.cached(#[trigger] tail[i]) is None by {
            assert(g0.cached(w[j + i]) is None);
        }
        lemma_path_positions(g0, g1, Seq::empty(), tail, pj, tail.len() - 1);
        let pl = choose|q: int| 0 <= q <= pj - (tail.len() - 1) && (#[trigger] log[q]).0
            == tail[tail.len() - 1];
        assert(log[pl].0 == log[pj].0);
        assert(pl < pj);
    }
}

} // verus!
