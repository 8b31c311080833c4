use std::rc::Rc;
use vstd::prelude::*;

use crate::node::{Node, NodeID};
use crate::node_graph::{Evaluation, GetNodeOutputsError, NodeGraph};

verus! {

broadcast use vstd::set_lib::range_set_properties;

/// Relies on `Rc::clone`: the new handle points to the same allocation, so it reads the same
/// value.
#[verifier::external_body]
fn share<T>(rc: &Rc<T>) -> (r: Rc<T>)
    ensures
        r == *rc,
{
    Rc::clone(rc)
}

/// The outputs a read hands back, as a sequence.
pub open spec fn outputs_view<V>(r: Result<Rc<Vec<V>>, GetNodeOutputsError>) -> Result<
    Seq<V>,
    GetNodeOutputsError,
> {
    match r {
        Ok(v) => Ok(v@),
        Err(e) => Err(e),
    }
}

impl<V: Clone, N> NodeGraph<V, N> {
    /// `slot` is what input `port` of node `id` reads in `self`: nothing without a link, else
    /// a copy of the cached output that the link comes from.
    pub open spec fn slot_matches(self, id: NodeID, port: int, slot: Option<V>) -> bool {
        match self.source(id, port) {
            None => slot is None,
            Some(src) => {
                &&& self.cached(src.0) is Some
                &&& src.1 < self.cached(src.0).unwrap().len()
                &&& slot is Some
                &&& cloned(self.cached(src.0).unwrap()[src.1 as int], slot.unwrap())
            },
        }
    }

    /// `slots` holds, for each input port of node `id` in order, what that port reads.
    pub open spec fn inputs_match(self, id: NodeID, slots: Seq<Option<V>>) -> bool {
        &&& slots.len() == self.input_types(id).len()
        &&& forall|port: int| 0 <= port < slots.len()
            ==> #[trigger] self.slot_matches(id, port, slots[port])
    }

    /// An input of node `id` is linked to an output position beyond what its source produced.
    pub open spec fn short_output(self, id: NodeID, port: int) -> bool {
        &&& self.has_input(id, port)
        &&& self.source(id, port) is Some
        &&& self.cached(self.source(id, port).unwrap().0) is Some
        &&& self.source(id, port).unwrap().1 >= self.cached(self.source(id,
            port).unwrap().0).unwrap().len()
    }

    /// Following links upstream from node `id` runs into a cycle.
    pub open spec fn reaches_cycle(self, id: NodeID) -> bool {
        exists|w: Seq<NodeID>|
            #[trigger] self.is_path(w) && w[0] == id && exists|j: int| 0 <= j < w.len() - 1 && w[j]
                == w.last()
    }

    /// The calls of `eval` made on the way from `self` to `after`.
    pub open spec fn new_evaluations(self, after: Self) -> Seq<Evaluation<V>> {
        after.evaluations().subrange(self.evaluations().len() as int,
            after.evaluations().len() as int)
    }

    /// `after` follows from `self` by evaluating nodes: links and schemas stay, the record of
    /// evaluations grows, cached outputs are kept, and each new evaluation was of a node that
    /// had nothing cached and is not in `busy`, was handed what its inputs read in `after`, and
    /// left its outputs cached if it succeeded. No node is evaluated twice, nodes that were not
    /// evaluated keep their instance, and nothing is cached without an evaluation.
    pub open spec fn evaluated(self, after: Self, busy: Seq<NodeID>) -> bool {
        let log = self.new_evaluations(after);
        &&& after.wf()
        &&& after.same_links(self)
        &&& self.evaluations().len() <= after.evaluations().len()
        &&& after.evaluations().subrange(0, self.evaluations().len() as int) == self.evaluations()
        &&& forall|x: NodeID| #[trigger]
            after.cached(x) == self.cached(x) || !self.has_node(x) || (self.cached(x) is None
                && exists|q: int|
                0 <= q < log.len() && (#[trigger] log[q]).0 == x)
        &&& forall|q: int|
            0 <= q < log.len() ==> {
                let e = #[trigger] log[q];
                &&& self.has_node(e.0)
                &&& self.cached(e.0) is None
                &&& !busy.contains(e.0)
                &&& after.inputs_match(e.0, e.1)
                &&& (e.2 is Ok ==> after.cached(e.0) == Some(e.2->Ok_0))
            }
        &&& forall|q1: int, q2: int|
            0 <= q1 < q2 < log.len() ==> (#[trigger] log[q1]).0 != (#[trigger] log[q2]).0
        &&& forall|x: NodeID| #[trigger]
            after.instance(x) == self.instance(x) || !self.has_node(x) || exists|q: int|
                0 <= q < log.len() && (#[trigger] log[q]).0 == x
        &&& forall|q: int, port: int|
            0 <= q < log.len() && #[trigger] self.linked_ready(log, q, port)
                ==> self.source_before(log, q, port)
    }

    /// Input `port` of the node evaluated at position `q` of `log` has a link.
    pub open spec fn linked_ready(self, log: Seq<Evaluation<V>>, q: int, port: int) -> bool {
        self.has_input(log[q].0, port) && self.source(log[q].0, port) is Some
    }

    /// The source node of input `port` of the node evaluated at position `q` of `log` had its
    /// outputs cached in `self` or was evaluated earlier in `log`.
    pub open spec fn source_before(self, log: Seq<Evaluation<V>>, q: int, port: int) -> bool {
        let s = self.source(log[q].0, port).unwrap().0;
        self.cached(s) is Some || exists|q2: int| 0 <= q2 < q && (#[trigger] log[q2]).0 == s
    }

    /// Every evaluation from `self` to `after` but possibly the last succeeded, and a failed last
    /// one is the error returned.
    pub open spec fn failures_end(self, after: Self, r: Result<Seq<V>,
        GetNodeOutputsError>) -> bool {
        let log = self.new_evaluations(after);
        &&& forall|q: int| 0 <= q < log.len() - 1 ==> (#[trigger] log[q]).2 is Ok
        &&& log.len() > 0 && log.last().2 is Err ==> r == Err::<Seq<V>, GetNodeOutputsError>(
            GetNodeOutputsError::NodeExecFailure(log.last().2->Err_0),
        )
    }

    /// What reading node `id` does to `self`, ending in `after` and returning `r`, while the
    /// nodes of `busy` wait for their inputs. Cached outputs are handed back without any
    /// evaluation. Otherwise the sources of the linked inputs are read first, then the node is
    /// evaluated once with what its inputs read and, on success, its outputs are cached and
    /// returned. A failed evaluation ends the read with its reason; a link back to a waiting
    /// node ends it with `CycleDetected`; a link to an output its source did not produce ends
    /// it with `MissingOutput`.
    pub open spec fn read_from(
        self,
        after: Self,
        id: NodeID,
        busy: Seq<NodeID>,
        r: Result<Seq<V>, GetNodeOutputsError>,
    ) -> bool {
        let log = self.new_evaluations(after);
        &&& self.evaluated(after, busy)
        &&& self.failures_end(after, r)
        &&& (self.cached(id) is Some ==> r
            == Ok::<Seq<V>, GetNodeOutputsError>(self.cached(id).unwrap()) && after == self)
        &&& match r {
            Ok(v) => {
                &&& after.cached(id) == Some(v)
                &&& self.cached(id) is None ==> log.len() > 0 && log.last().0 == id && log.last().2
                    == Ok::<Seq<V>, String>(v)
            },
            Err(GetNodeOutputsError::NodeExecFailure(e)) => log.len() > 0 && log.last().2
                == Err::<Seq<V>, String>(e),
            Err(GetNodeOutputsError::CycleDetected) => self.reaches_cycle(
                if busy.len() > 0 {
                    busy[0]
                } else {
                    id
                },
            ),
            Err(GetNodeOutputsError::MissingOutput) => exists|x: NodeID,
                port: int| after.short_output(x, port),
            Err(GetNodeOutputsError::NodeNotFound) => false,
        }
    }

    /// What `get_node_outputs(id)` does to `self`, ending in `after` and returning `r`: an
    /// unknown node is an error that changes nothing; otherwise the read of `read_from` with
    /// no node waiting.
    pub open spec fn read_outcome(
        self,
        after: Self,
        id: NodeID,
        r: Result<Seq<V>, GetNodeOutputsError>,
    ) -> bool {
        if !self.has_node(id) {
            r == Err::<Seq<V>, GetNodeOutputsError>(GetNodeOutputsError::NodeNotFound) && after
                == self
        } else {
            self.read_from(after, id, Seq::empty(), r)
        }
    }

    proof fn lemma_slot_kept(self, after: Self, id: NodeID, port: int, slot: Option<V>)
        requires
            self.has_input(id, port),
            self.slot_matches(id, port, slot),
            after.same_links(self),
            forall|x: NodeID| #[trigger] self.cached(x) is Some && self.has_node(x)
                ==> after.cached(x) == self.cached(x),
            self.wf(),
        ensures
            after.slot_matches(id, port, slot),
    {
        assert(after.source(id, port) == self.source(id, port));
        if self.source(id, port) is Some {
            let src = self.source(id, port).unwrap();
            assert(self.valid_link(id, port, src));
            assert(self.has_node(src.0));
        }
    }

    proof fn lemma_evaluated_refl(self, busy: Seq<NodeID>)
        requires
            self.wf(),
        ensures
            self.evaluated(self, busy),
            self.failures_end(self, Ok(Seq::empty())),
    {
        assert(self.evaluations().subrange(0,
            self.evaluations().len() as int) =~= self.evaluations());
        assert(self.new_evaluations(self).len() == 0);
        self.lemma_wf_frame(self);
    }

    proof fn lemma_evaluated_weaken(self, after: Self, busy: Seq<NodeID>, fewer: Seq<NodeID>)
        requires
            self.evaluated(after, busy),
            forall|x: NodeID| #[trigger] fewer.contains(x) ==> busy.contains(x),
        ensures
            self.evaluated(after, fewer),
    {
        let log = self.new_evaluations(after);
        assert forall|q: int| 0 <= q < log.len() implies !fewer.contains((#[trigger] log[q]).0) by {
            assert(!busy.contains(log[q].0));
        }
    }

    proof fn lemma_evaluated_compose(self, mid: Self, after: Self, busy: Seq<NodeID>)
        requires
            self.wf(),
            self.evaluated(mid, busy),
            mid.evaluated(after, busy),
            forall|q: int| 0 <= q < self.new_evaluations(mid).len()
                ==> (#[trigger] self.new_evaluations(mid)[q]).2 is Ok,
        ensures
            self.evaluated(after, busy),
            self.new_evaluations(after) == self.new_evaluations(mid) + mid.new_evaluations(after),
    {
        let l1 = self.new_evaluations(mid);
        let l2 = mid.new_evaluations(after);
        let log = self.new_evaluations(after);
        let a = self.evaluations().len() as int;
        let b = mid.evaluations().len() as int;
        assert(after.evaluations().subrange(0, b) == mid.evaluations());
        assert(after.evaluations().subrange(0, a) =~= mid.evaluations().subrange(0, a));
        assert(log =~= l1 + l2);
        assert(after.same_links(self)) by {
            assert forall|id: NodeID, port: int| after.has_input(id, port)
                implies #[trigger] after.source(id, port) == self.source(id, port) by {
                assert(mid.input_types(id) == after.input_types(id));
                assert(mid.has_input(id, port));
                assert(self.input_types(id) == mid.input_types(id));
            }
            assert forall|id: NodeID, port: int| after.has_output(id, port)
                implies #[trigger] after.fan_out(id, port) == self.fan_out(id, port) by {
                assert(mid.output_types(id) == after.output_types(id));
                assert(mid.has_output(id, port));
                assert(self.output_types(id) == mid.output_types(id));
            }
            assert forall|id: NodeID| #[trigger] after.has_node(id) implies after.input_types(id)
                == self.input_types(id) && after.output_types(id) == self.output_types(id) by {
                assert(mid.input_types(id) == after.input_types(id));
                assert(self.input_types(id) == mid.input_types(id));
            }
        }
        assert forall|q: int| 0 <= q < log.len() implies {
            let e = #[trigger] log[q];
            &&& self.has_node(e.0)
            &&& self.cached(e.0) is None
            &&& !busy.contains(e.0)
            &&& after.inputs_match(e.0, e.1)
            &&& (e.2 is Ok ==> after.cached(e.0) == Some(e.2->Ok_0))
        } by {
            let e = log[q];
            if q < l1.len() {
                assert(e == l1[q]);
                assert(mid.inputs_match(e.0, e.1));
                assert(l1[q].2 is Ok);
                assert(mid.cached(e.0) is Some);
                assert(after.cached(e.0) == mid.cached(e.0));
                assert forall|port: int| 0 <= port < e.1.len()
                    implies #[trigger] after.slot_matches(e.0, port, e.1[port]) by {
                    assert(mid.slot_matches(e.0, port, e.1[port]));
                    assert(after.same_links(mid));
                    assert(mid.input_types(e.0) == after.input_types(e.0));
                    mid.lemma_slot_kept(after, e.0, port, e.1[port]);
                }
                assert(mid.input_types(e.0) == after.input_types(e.0));
            } else {
                assert(e == l2[q - l1.len()]);
                assert(mid.cached(e.0) is None);
                if self.cached(e.0) is Some {
                    assert(mid.cached(e.0) == self.cached(e.0));
                }
            }
        }
        assert forall|q1: int, q2: int| 0 <= q1 < q2 < log.len()
            implies (#[trigger] log[q1]).0 != (#[trigger] log[q2]).0 by {
            if q2 < l1.len() {
                assert(l1[q1] == log[q1] && l1[q2] == log[q2]);
            } else if q1 >= l1.len() {
                assert(l2[q1 - l1.len()] == log[q1] && l2[q2 - l1.len()] == log[q2]);
            } else {
                assert(l1[q1] == log[q1] && l2[q2 - l1.len()] == log[q2]);
                assert(l1[q1].2 is Ok);
                assert(mid.cached(l1[q1].0) is Some);
                assert(mid.cached(l2[q2 - l1.len()].0) is None);
            }
        }
        assert forall|x: NodeID| #[trigger]
            after.cached(x) == self.cached(x) || !self.has_node(x) || (self.cached(x) is None
                && exists|q: int|
                0 <= q < log.len() && (#[trigger] log[q]).0 == x) by {
            if self.has_node(x) && after.cached(x) != self.cached(x) {
                if mid.cached(x) != self.cached(x) {
                    let q = choose|q: int| 0 <= q < l1.len() && (#[trigger] l1[q]).0 == x;
                    assert(log[q] == l1[q]);
                } else {
                    assert(mid.has_node(x));
                    let q = choose|q: int| 0 <= q < l2.len() && (#[trigger] l2[q]).0 == x;
                    assert(log[q + l1.len()] == l2[q]);
                }
            }
        }
        assert forall|x: NodeID| #[trigger]
            after.instance(x) == self.instance(x) || !self.has_node(x) || exists|q: int|
                0 <= q < log.len() && (#[trigger] log[q]).0 == x by {
            if self.has_node(x) && after.instance(x) != self.instance(x) {
                if mid.instance(x) != self.instance(x) {
                    let q = choose|q: int| 0 <= q < l1.len() && (#[trigger] l1[q]).0 == x;
                    assert(log[q] == l1[q]);
                } else {
                    assert(mid.has_node(x));
                    let q = choose|q: int| 0 <= q < l2.len() && (#[trigger] l2[q]).0 == x;
                    assert(log[q + l1.len()] == l2[q]);
                }
            }
        }
        assert forall|q: int, port: int|
            0 <= q < log.len() && #[trigger] self.linked_ready(log, q, port)
                implies self.source_before(log, q, port) by {
            let x = log[q].0;
            assert(self.has_input(x, port));
            assert(mid.source(x, port) == self.source(x, port));
            assert(mid.input_types(x) == self.input_types(x));
            let sn = self.source(x, port).unwrap().0;
            if q < l1.len() {
                assert(log[q] == l1[q]);
                assert(self.linked_ready(l1, q, port));
                assert(self.source_before(l1, q, port));
                if self.cached(sn) is None {
                    let q2 = choose|q2: int| 0 <= q2 < q && (#[trigger] l1[q2]).0 == sn;
                    assert(log[q2] == l1[q2]);
                }
            } else {
                let qq = q - l1.len();
                assert(log[q] == l2[qq]);
                assert(mid.linked_ready(l2, qq, port));
                assert(mid.source_before(l2, qq, port));
                if mid.cached(sn) is None {
                    let q2 = choose|q2: int| 0 <= q2 < qq && (#[trigger] l2[q2]).0 == sn;
                    assert(log[q2 + l1.len()] == l2[q2]);
                } else if self.cached(sn) is None {
                    assert(self.valid_link(x, port, self.source(x, port).unwrap()));
                    let q2 = choose|q2: int| 0 <= q2 < l1.len() && (#[trigger] l1[q2]).0 == sn;
                    assert(log[q2] == l1[q2]);
                }
            }
        }
    }
}

impl<V: Clone, N: Node<V>> NodeGraph<V, N> {
    /// `busy` is a chain of distinct nodes with nothing cached, each reading from the next and
    /// the last reading from node `id`.
    pub open spec fn waiting_chain(self, busy: Seq<NodeID>, id: NodeID) -> bool {
        &&& busy.no_duplicates()
        &&& forall|k: int|
            0 <= k < busy.len() ==> self.has_node(#[trigger] busy[k])
                && self.cached(busy[k]) is None
        &&& busy.len() > 0 ==> self.is_path(busy) && self.feeds(id, busy.last())
    }

    proof fn lemma_chain_len(self, busy: Seq<NodeID>)
        requires
            self.wf(),
            busy.no_duplicates(),
            forall|k: int| 0 <= k < busy.len() ==> self.has_node(#[trigger] busy[k]),
        ensures
            busy.len() <= self.len(),
    {
        busy.unique_seq_to_set();
        let all = Set::<NodeID>::range(0, self.max_node_id);
        assert(busy.to_set().subset_of(all)) by {
            assert forall|x: NodeID| busy.to_set().contains(x) implies all.contains(x) by {
                let k = busy.index_of(x);
                assert(self.has_node(busy[k]));
            }
        }
        vstd::set_lib::lemma_len_subset(busy.to_set(), all);
    }

    /// Reads node `id` while the nodes of `busy` wait for it; see `read_from`.
    fn resolve(&mut self, id: NodeID, busy: &mut Vec<NodeID>,
        Ghost(room): Ghost<int>) -> (r: Result<
        Rc<Vec<V>>,
        GetNodeOutputsError,
    >)
        requires
            old(self).wf(),
            old(self).has_node(id),
            old(self).waiting_chain(old(busy)@, id),
            room == old(self).len() - old(busy)@.len(),
        ensures
            final(busy)@ == old(busy)@,
            old(self).read_from(*final(self), id, old(busy)@, outputs_view(r)),
        decreases room,
    {
        let ghost g = *self;
        let ghost s0 = busy@;
        let n = self.outputs.len();
        proof {
            g.lemma_evaluated_refl(s0);
            g.lemma_chain_len(s0);
        }
        if let Some(cached) = &self.outputs[id as usize] {
            return Ok(share(cached));
        }
        if contains_id(busy, id) {
            proof {
                let w = s0.push(id);
                let j = s0.index_of(id);
                assert forall|k: int| 0 <= k < w.len() - 1
                    implies #[trigger] g.feeds(w[k + 1], w[k]) by {
                    if k < s0.len() - 1 {
                        assert(g.feeds(s0[k + 1], s0[k]));
                    }
                }
                assert(g.is_path(w) && w[0] == s0[0] && w[j] == w.last());
            }
            return Err(GetNodeOutputsError::CycleDetected);
        }
        let ghost s1 = s0.push(id);
        proof {
            assert forall|k: int| 0 <= k < s1.len() implies g.has_node(#[trigger] s1[k]) by {}
            assert(s1.no_duplicates());
            g.lemma_chain_len(s1);
        }
        busy.push(id);
        proof {
            assert forall|x: NodeID| #[trigger] s0.contains(x) implies s1.contains(x) by {
                let k = s0.index_of(x);
                assert(s1[k] == x);
            }
            assert(s1.drop_last() =~= s0);
        }
        let count = self.parameters[id as usize].len();
        let mut slots: Vec<Option<V>> = Vec::new();
        let mut i: usize = 0;
        while i < count
            invariant
                g.wf(),
                g.has_node(id),
                g.waiting_chain(s0, id),
                !s0.contains(id),
                g.cached(id) is None,
                s1 == s0.push(id),
                busy@ == s1,
                s1.len() <= g.len(),
                n == g.len(),
                count == g.input_types(id).len(),
                i <= count,
                g.evaluated(*self, s1),
                forall|q: int| 0 <= q < g.new_evaluations(*self).len()
                    ==> (#[trigger] g.new_evaluations(*self)[q]).2 is Ok,
                slots@.len() == i,
                forall|p: int| 0 <= p < i ==> #[trigger] self.slot_matches(id, p, slots@[p]),
                forall|x: NodeID| #[trigger] s0.contains(x) ==> s1.contains(x),
                s1.drop_last() == s0,
                s0 == old(busy)@,
                g == *old(self),
                room == g.len() - s0.len(),
            decreases count - i,
        {
            let link = self.parameters[id as usize][i];
            proof {
                assert(self.source(id, i as int) == link);
                assert(g.has_input(id, i as int));
                assert(g.source(id, i as int) == link);
            }
            match link {
                None => {
                    let ghost slots_before = slots@;
                    slots.push(None);
                    proof {
                        assert forall|p: int| 0 <= p < i + 1
                            implies #[trigger] self.slot_matches(id, p, slots@[p]) by {
                            if p < i {
                                assert(slots@[p] == slots_before[p]);
                            }
                        }
                    }
                },
                Some(src) => {
                    let ghost mid = *self;
                    proof {
                        assert(g.valid_link(id, i as int, src));
                        assert(g.feeds(src.0, id));
                        assert(mid.waiting_chain(s1, src.0)) by {
                            g.lemma_same_links_same_paths(mid);
                            assert forall|k: int| 0 <= k < s1.len()
                                implies mid.has_node(#[trigger] s1[k]) && mid.cached(s1[k]) is None
                                by {
                                assert(g.cached(s1[k]) is None);
                                if mid.cached(s1[k]) != g.cached(s1[k]) {
                                    let log = g.new_evaluations(mid);
                                    let q = choose|q: int| 0 <= q < log.len()
                                        && (#[trigger] log[q]).0 == s1[k];
                                    assert(!s1.contains(log[q].0));
                                }
                            }
                            assert(g.is_path(s1)) by {
                                assert forall|k: int| 0 <= k < s1.len() - 1
                                    implies #[trigger] g.feeds(s1[k + 1], s1[k]) by {
                                    if k < s0.len() - 1 {
                                        assert(g.feeds(s0[k + 1], s0[k]));
                                    }
                                }
                            }
                            assert(mid.feeds(src.0, id)) by {
                                assert(mid.source(id, i as int) == link);
                                assert(mid.input_types(id) == g.input_types(id));
                            }
                        }
                    }
                    proof {
                        assert(mid.len() == g.len());
                        assert(s1.len() == s0.len() + 1);
                        assert(busy@ == s1);
                        assert(0 <= mid.len() - busy@.len() < g.len() - s0.len());
                    }
                    let res = self.resolve(src.0, busy, Ghost(room - 1));
                    proof {
                        g.lemma_evaluated_compose(mid, *self, s1);
                    }
                    match res {
                        Err(e) => {
                            proof {
                                assert(busy@ == s1);
                            }
                            busy.pop();
                            proof {
                                assert(busy@ == s0);
                                g.lemma_evaluated_weaken(*self, s1, s0);
                                let l1 = g.new_evaluations(mid);
                                let l2 = mid.new_evaluations(*self);
                                let log = g.new_evaluations(*self);
                                assert forall|q: int| 0 <= q < log.len() - 1
                                    implies (#[trigger] log[q]).2 is Ok by {
                                    if q < l1.len() {
                                        assert(log[q] == l1[q]);
                                    } else {
                                        assert(log[q] == l2[q - l1.len()]);
                                    }
                                }
                                if l2.len() == 0 {
                                    assert(log =~= l1);
                                    if log.len() > 0 {
                                        assert(l1[l1.len() - 1].2 is Ok);
                                    }
                                } else {
                                    assert(log.last() == l2.last());
                                }
                                if e is CycleDetected {
                                    mid.lemma_same_links_same_paths(g);
                                    let start = if s1.len() > 0 { s1[0] } else { src.0 };
                                    let w = choose|w: Seq<NodeID>|
                                        #[trigger] mid.is_path(w) && w[0] == start
                                            && exists|j: int| 0 <= j < w.len() - 1 && w[j]
                                            == w.last();
                                    assert(g.is_path(w));
                                }
                            }
                            return Err(e);
                        },
                        Ok(outs) => {
                            if src.1 < outs.len() {
                                let value = outs[src.1].clone();
                                let ghost slots_before = slots@;
                                slots.push(Some(value));
                                proof {
                                    assert forall|p: int| 0 <= p < i + 1
                                        implies #[trigger] self.slot_matches(id, p, slots@[p]) by {
                                        assert(self.input_types(id) == g.input_types(id));
                                        if p < i {
                                            assert(slots@[p] == slots_before[p]);
                                            assert(mid.slot_matches(id, p, slots@[p]));
                                            assert(mid.input_types(id) == g.input_types(id));
                                            mid.lemma_slot_kept(*self, id, p, slots@[p]);
                                        } else {
                                            assert(self.source(id, p) == Some(src));
                                        }
                                    }
                                }
                            } else {
                                busy.pop();
                                proof {
                                    g.lemma_evaluated_weaken(*self, s1, s0);
                                    assert(self.source(id, i as int) == Some(src));
                                    assert(self.input_types(id) == g.input_types(id));
                                    assert(self.short_output(id, i as int));
                                }
                                return Err(GetNodeOutputsError::MissingOutput);
                            }
                        },
                    }
                },
            }
            i += 1;
        }
        busy.pop();
        let ghost b = *self;
        proof {
            g.lemma_evaluated_weaken(b, s1, s0);
            assert(b.cached(id) is None) by {
                if b.cached(id) != g.cached(id) {
                    let log = g.new_evaluations(b);
                    let q = choose|q: int| 0 <= q < log.len() && (#[trigger] log[q]).0 == id;
                    assert(!s1.contains(log[q].0));
                }
            }
        }
        let result = self.nodes[id as usize].node.eval(slots.as_slice());
        let ghost after_eval = *self;
        proof {
            assert forall|k: int| 0 <= k < b.nodes@.len()
                implies (#[trigger] after_eval.nodes@[k]).inputs
                == b.nodes@[k].inputs && after_eval.nodes@[k].outputs == b.nodes@[k].outputs by {
            }
        }
        match result {
            Ok(values) => {
                let ghost out = values@;
                let shared = Rc::new(values);
                self.outputs.set(id as usize, Some(share(&shared)));
                self.evaluations = Ghost(self.evaluations@.push((id, slots@, Ok(out))));
                proof {
                    self.lemma_eval_step(b, id, slots@, s0);
                    g.lemma_evaluated_compose(b, *self, s0);
                    let log = g.new_evaluations(*self);
                    let l1 = g.new_evaluations(b);
                    assert(log.last() == self.evaluations@.last());
                    assert forall|q: int| 0 <= q < log.len() - 1 implies (#[trigger] log[q]).2 is Ok
                        by {
                        assert(log[q] == l1[q]);
                    }
                }
                Ok(shared)
            },
            Err(e) => {
                self.evaluations = Ghost(self.evaluations@.push((id, slots@, Err(e))));
                proof {
                    self.lemma_eval_step(b, id, slots@, s0);
                    g.lemma_evaluated_compose(b, *self, s0);
                    let log = g.new_evaluations(*self);
                    let l1 = g.new_evaluations(b);
                    assert(log.last() == self.evaluations@.last());
                    assert forall|q: int| 0 <= q < log.len() - 1 implies (#[trigger] log[q]).2 is Ok
                        by {
                        assert(log[q] == l1[q]);
                    }
                }
                Err(GetNodeOutputsError::NodeExecFailure(e))
            },
        }
    }

    /// The outputs of node `node_id`: the cached ones if there are any, else computed by
    /// reading its linked inputs first; see `read_outcome`.
    pub fn get_node_outputs(&mut self, node_id: NodeID) -> (r: Result<Rc<Vec<V>>,
        GetNodeOutputsError>)
        requires
            old(self).wf(),
        ensures
            old(self).read_outcome(*final(self), node_id, outputs_view(r)),
    {
        if node_id >= self.max_node_id {
            return Err(GetNodeOutputsError::NodeNotFound);
        }
        let mut busy: Vec<NodeID> = Vec::new();
        proof {
            assert(busy@.no_duplicates());
        }
        self.resolve(node_id, &mut busy, Ghost(self.len() as int))
    }
}

impl<V: Clone, N> NodeGraph<V, N> {
    /// One evaluation of node `id` with `slots`, whose outputs, on success, are now cached.
    proof fn lemma_eval_step(self, before: Self, id: NodeID, slots: Seq<Option<V>>,
        busy: Seq<NodeID>)
        requires
            before.wf(),
            before.has_node(id),
            before.cached(id) is None,
            before.inputs_match(id, slots),
            !busy.contains(id),
            self.nodes@.len() == before.nodes@.len(),
            forall|k: int|
                0 <= k < before.nodes@.len() ==> (#[trigger] self.nodes@[k]).inputs
                    == before.nodes@[k].inputs && self.nodes@[k].outputs
                        == before.nodes@[k].outputs,
            forall|k: int| 0 <= k < before.nodes@.len() && k != id
                ==> (#[trigger] self.nodes@[k]).node == before.nodes@[k].node,
            self.parameters == before.parameters,
            self.connections == before.connections,
            self.max_node_id == before.max_node_id,
            self.evaluations@ == before.evaluations@.push(self.evaluations@.last()),
            self.evaluations@.last().0 == id,
            self.evaluations@.last().1 == slots,
            self.outputs@.len() == before.outputs@.len(),
            forall|k: int| 0 <= k < before.outputs@.len() && k != id ==> #[trigger] self.outputs@[k]
                == before.outputs@[k],
            self.cached(id) == match self.evaluations@.last().2 {
                Ok(v) => Some(v),
                Err(_) => None,
            },
        ensures
            before.evaluated(self, busy),
            before.new_evaluations(self) == seq![self.evaluations@.last()],
    {
        let e = self.evaluations@.last();
        let log = before.new_evaluations(self);
        assert(log =~= seq![e]);
        assert(self.evaluations@.subrange(0,
            before.evaluations@.len() as int) =~= before.evaluations@);
        assert forall|q: int| 0 <= q < self.evaluations@.len()
            implies (#[trigger] self.evaluations@[q]).0 < self.nodes@.len() by {
            if q < before.evaluations@.len() {
                assert(self.evaluations@[q] == before.evaluations@[q]);
            }
        }
        before.lemma_wf_frame(self);
        assert forall|x: NodeID| #[trigger] self.cached(x) is Some && before.has_node(x)
            && before.cached(x) is Some implies self.cached(x) == before.cached(x) by {
            assert(x != id);
            assert(self.outputs@[x as int] == before.outputs@[x as int]);
        }
        assert forall|x: NodeID| #[trigger]
            self.cached(x) == before.cached(x) || !before.has_node(x) || (before.cached(x) is None
                && exists|q: int|
                0 <= q < log.len() && (#[trigger] log[q]).0 == x) by {
            if x != id && before.has_node(x) {
                assert(self.outputs@[x as int] == before.outputs@[x as int]);
            }
            if x == id {
                assert(log[0].0 == x);
            }
        }
        assert forall|x: NodeID| #[trigger]
            self.instance(x) == before.instance(x) || !before.has_node(x) || exists|q: int|
                0 <= q < log.len() && (#[trigger] log[q]).0 == x by {
            if x == id {
                assert(log[0].0 == x);
            } else if before.has_node(x) {
                assert(self.nodes@[x as int].node == before.nodes@[x as int].node);
            }
        }
        assert(self.inputs_match(id, slots)) by {
            assert(self.input_types(id) == before.input_types(id));
            assert forall|port: int| 0 <= port < slots.len()
                implies #[trigger] self.slot_matches(id, port, slots[port]) by {
                assert(before.slot_matches(id, port, slots[port]));
                assert forall|x: NodeID| #[trigger] before.cached(x) is Some && before.has_node(x)
                    implies self.cached(x) == before.cached(x) by {
                    assert(x != id);
                    assert(self.outputs@[x as int] == before.outputs@[x as int]);
                }
                before.lemma_slot_kept(self, id, port, slots[port]);
            }
        }
        assert(log[0] == e);
        assert forall|q: int, port: int|
            0 <= q < log.len() && #[trigger] before.linked_ready(log, q, port)
                implies before.source_before(log, q, port) by {
            assert(q == 0);
            assert(before.slot_matches(id, port, slots[port]));
        }
    }
}

/// Whether `id` is one of the entries of `list`.
fn contains_id(list: &Vec<NodeID>, id: NodeID) -> (r: bool)
    ensures
        r == list@.contains(id),
{
    let mut i: usize = 0;
    while i < list.len()
        invariant
            i <= list@.len(),
            forall|k: int| 0 <= k < i ==> list@[k] != id,
        decreases list@.len() - i,
    {
        if list[i] == id {
            return true;
        }
        i += 1;
    }
    false
}

} // verus!
