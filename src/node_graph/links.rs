use vstd::prelude::*;

use crate::node::{NodeID, NodeParamIndex};
use crate::node_graph::{NodeConnectError, NodeDisconnectError, NodeGraph};

verus! {

broadcast use vstd::set_lib::range_set_properties;

impl<V, N> NodeGraph<V, N> {
    /// Some input port of node `t` is linked from an output port of node `x`.
    pub open spec fn feeds(self, x: NodeID, t: NodeID) -> bool {
        exists|port: int|
            #![trigger self.source(t, port)]
            self.has_input(t, port) && self.source(t, port) is Some && self.source(
                t,
                port,
            ).unwrap().0 == x
    }

    /// `w` follows links upstream: each node of `w` takes an input from the next one.
    pub open spec fn is_path(self, w: Seq<NodeID>) -> bool {
        &&& w.len() > 0
        &&& forall|k: int| 0 <= k < w.len() - 1 ==> #[trigger] self.feeds(w[k + 1], w[k])
    }

    /// Node `x` is `y` or reads, through one or more links, an output of `y`.
    pub open spec fn depends_on(self, x: NodeID, y: NodeID) -> bool {
        exists|w: Seq<NodeID>| #[trigger] self.is_path(w) && w[0] == x && w.last() == y
    }

    /// The cache of `self` is that of `before` with node `id` and everything that depends on
    /// it dropped.
    pub open spec fn dropped_dependents(self, before: Self, id: NodeID) -> bool {
        forall|x: NodeID| #[trigger]
            self.cached(x) == if self.depends_on(x, id) {
                None
            } else {
                before.cached(x)
            } || !self.has_node(x)
    }

    /// `self` is `before` with input `port` of node `id` linked to `src` instead; schemas,
    /// instances and other links are unchanged.
    pub open spec fn relinked(
        self,
        before: Self,
        id: NodeID,
        port: int,
        src: Option<NodeParamIndex>,
    ) -> bool {
        &&& self.len() == before.len()
        &&& forall|x: NodeID|
            #![trigger self.input_types(x)]
            #![trigger self.output_types(x)]
            #![trigger self.instance(x)]
            before.has_node(x) ==> {
                &&& self.input_types(x) == before.input_types(x)
                &&& self.output_types(x) == before.output_types(x)
                &&& self.instance(x) == before.instance(x)
            }
        &&& forall|x: NodeID, p: int|
            before.has_input(x, p) ==> #[trigger] self.source(x, p) == if x == id && p == port {
                src
            } else {
                before.source(x, p)
            }
        &&& self.evaluations() == before.evaluations()
    }

    /// What `connect(from, from_index, to, to_index)` does to `self`, ending in `after` and
    /// returning `r`. The checks come in this order: the two ends are distinct nodes, both
    /// exist, both ports exist, their kinds agree. On success the input port takes the new
    /// source, replacing any earlier one, and the cached outputs of `to` and of every node that
    /// depends on it are dropped. On failure nothing changes.
    pub open spec fn connect_outcome(
        self,
        after: Self,
        from: NodeID,
        from_index: usize,
        to: NodeID,
        to_index: usize,
        r: Result<(), NodeConnectError>,
    ) -> bool {
        &&& after.wf()
        &&& if from == to {
            r == Err::<(), NodeConnectError>(NodeConnectError::SelfConnect) && after == self
        } else if !self.has_node(from) {
            r == Err::<(), NodeConnectError>(NodeConnectError::SourceNodeNotFound) && after == self
        } else if !self.has_node(to) {
            r == Err::<(), NodeConnectError>(NodeConnectError::TargetNodeNotFound) && after == self
        } else if !self.has_output(from, from_index as int) {
            r == Err::<(), NodeConnectError>(NodeConnectError::SourceIndexOutOfRange) && after
                == self
        } else if !self.has_input(to, to_index as int) {
            r == Err::<(), NodeConnectError>(NodeConnectError::TargetIndexOutOfRange) && after
                == self
        } else if self.output_types(from)[from_index as int] != self.input_types(
            to,
        )[to_index as int] {
            r == Err::<(), NodeConnectError>(NodeConnectError::ParameterMismatch) && after == self
        } else {
            &&& r is Ok
            &&& after.relinked(
                self,
                to,
                to_index as int,
                Some(NodeParamIndex(from, from_index)),
            )
            &&& after.dropped_dependents(self, to)
        }
    }

    /// What `disconnect(id, port)` does to `self`, ending in `after` and returning `r`: an input
    /// port without a link, or no such port, is an error and changes nothing; otherwise the
    /// link is removed and the cached outputs of `id` and of every node that depends on it are
    /// dropped.
    pub open spec fn disconnect_outcome(
        self,
        after: Self,
        id: NodeID,
        port: usize,
        r: Result<(), NodeDisconnectError>,
    ) -> bool {
        &&& after.wf()
        &&& if !self.has_input(id, port as int) || self.source(id, port as int) is None {
            r == Err::<(), NodeDisconnectError>(NodeDisconnectError::NodeNotFound) && after
                == self
        } else {
            &&& r is Ok
            &&& after.relinked(self, id, port as int, None)
            &&& after.dropped_dependents(self, id)
        }
    }

    proof fn lemma_path_extend(self, t: NodeID, x: NodeID, y: NodeID)
        requires
            self.depends_on(x, y),
            self.feeds(x, t),
        ensures
            self.depends_on(t, y),
    {
        let w = choose|w: Seq<NodeID>| #[trigger] self.is_path(w) && w[0] == x && w.last() == y;
        let w2 = seq![t] + w;
        assert forall|k: int| 0 <= k < w2.len() - 1 implies #[trigger] self.feeds(
            w2[k + 1],
            w2[k],
        ) by {
            if k > 0 {
                assert(w2[k + 1] == w[k] && w2[k] == w[k - 1]);
                assert(self.feeds(w[(k - 1) + 1], w[k - 1]));
            }
        }
        assert(self.is_path(w2));
    }

    proof fn lemma_closed_holds_path(self, seen: Set<NodeID>, w: Seq<NodeID>, k: int)
        requires
            self.is_path(w),
            seen.contains(w.last()),
            forall|a: NodeID, b: NodeID| seen.contains(a) && #[trigger] self.feeds(a, b)
                ==> seen.contains(b),
            0 <= k < w.len(),
        ensures
            seen.contains(w[k]),
        decreases w.len() - k,
    {
        if k < w.len() - 1 {
            self.lemma_closed_holds_path(seen, w, k + 1);
            assert(self.feeds(w[k + 1], w[k]));
        }
    }

    /// Drops the cached outputs of node `id` and of every node that depends on it, walking
    /// the fan-out index from `id` downstream.
    fn invalidate_dependents(&mut self, id: NodeID)
        requires
            old(self).wf(),
            old(self).has_node(id),
        ensures
            final(self).wf(),
            final(self).nodes == old(self).nodes,
            final(self).parameters == old(self).parameters,
            final(self).connections == old(self).connections,
            final(self).evaluations == old(self).evaluations,
            final(self).max_node_id == old(self).max_node_id,
            forall|x: NodeID| #[trigger]
                final(self).cached(x) == if old(self).depends_on(x, id) {
                    None
                } else {
                    old(self).cached(x)
                } || !old(self).has_node(x),
    {
        let ghost g = *old(self);
        let n = self.outputs.len();
        let mut marked: Vec<bool> = Vec::new();
        while marked.len() < n
            invariant
                marked@.len() <= n,
                forall|i: int| 0 <= i < marked@.len() ==> !marked@[i],
            decreases n - marked@.len(),
        {
            marked.push(false);
        }
        marked.set(id as usize, true);
        self.outputs.set(id as usize, None);
        let mut pending: Vec<NodeID> = Vec::new();
        pending.push(id);
        let ghost mut seen: Set<NodeID> = set![id];
        proof {
            assert(g.is_path(seq![id]));
            assert(g.depends_on(id, id));
            assert(pending@[0] == id);
            assert(pending@.contains(id));
        }
        while pending.len() > 0
            invariant
                self.nodes == g.nodes,
                self.parameters == g.parameters,
                self.connections == g.connections,
                self.evaluations == g.evaluations,
                self.max_node_id == g.max_node_id,
                g.wf(),
                n == g.len(),
                self.outputs@.len() == n,
                marked@.len() == n,
                seen.finite(),
                seen.contains(id),
                forall|x: NodeID| x < n ==> (marked@[x as int] <==> #[trigger] seen.contains(x)),
                forall|x: NodeID| #[trigger] seen.contains(x) ==> x < n && g.depends_on(x, id),
                forall|i: int| 0 <= i < pending@.len() ==> seen.contains(#[trigger] pending@[i]),
                forall|a: NodeID, b: NodeID|
                    seen.contains(a) && !pending@.contains(a) && #[trigger] g.feeds(a, b)
                        ==> seen.contains(b),
                forall|x: NodeID| #[trigger]
                    self.cached(x) == if seen.contains(x) {
                        None
                    } else {
                        g.cached(x)
                    } || x >= n,
            decreases (n - seen.len()) + pending@.len(),
        {
            proof {
                vstd::set_lib::lemma_len_subset(seen, Set::<NodeID>::range(0, n as NodeID));
            }
            let ghost measure = (n - seen.len()) + pending@.len();
            let ghost before = pending@;
            let x = pending.pop().unwrap();
            proof {
                assert(before =~= pending@.push(x));
                assert forall|a: NodeID| #[trigger] before.contains(a) implies pending@.contains(a)
                    || a == x by {
                    let i = before.index_of(a);
                    if i < pending@.len() {
                        assert(pending@[i] == a);
                    }
                }
            }
            let ports = self.connections[x as usize].len();
            let mut k: usize = 0;
            while k < ports
                invariant
                    self.nodes == g.nodes,
                    self.parameters == g.parameters,
                    self.connections == g.connections,
                    self.evaluations == g.evaluations,
                    self.max_node_id == g.max_node_id,
                    g.wf(),
                    n == g.len(),
                    x < n,
                    seen.contains(x),
                    ports == g.connections@[x as int]@.len(),
                    k <= ports,
                    self.outputs@.len() == n,
                    marked@.len() == n,
                    seen.finite(),
                    seen.contains(id),
                    seen.len() <= n,
                    (n - seen.len()) + pending@.len() == measure - 1,
                    forall|x: NodeID| x < n ==> (marked@[x as int]
                        <==> #[trigger] seen.contains(x)),
                    forall|x: NodeID| #[trigger] seen.contains(x) ==> x < n && g.depends_on(x, id),
                    forall|i: int| 0 <= i < pending@.len()
                        ==> seen.contains(#[trigger] pending@[i]),
                    forall|a: NodeID, b: NodeID|
                        seen.contains(a) && !pending@.contains(a) && a != x
                            && #[trigger] g.feeds(a, b)
                            ==> seen.contains(b),
                    forall|k2: int, t: NodeParamIndex|
                        0 <= k2 < k && #[trigger] g.fan_out(x, k2).contains(t)
                            ==> seen.contains(t.0),
                    forall|x: NodeID| #[trigger]
                        self.cached(x) == if seen.contains(x) {
                            None
                        } else {
                            g.cached(x)
                        } || x >= n,
                decreases ports - k,
            {
                let m = self.connections[x as usize][k].len();
                let mut j: usize = 0;
                while j < m
                    invariant
                        self.nodes == g.nodes,
                        self.parameters == g.parameters,
                        self.connections == g.connections,
                        self.evaluations == g.evaluations,
                        self.max_node_id == g.max_node_id,
                        g.wf(),
                        n == g.len(),
                        x < n,
                        seen.contains(x),
                        ports == g.connections@[x as int]@.len(),
                        k < ports,
                        m == g.fan_out(x, k as int).len(),
                        j <= m,
                        self.outputs@.len() == n,
                        marked@.len() == n,
                        seen.finite(),
                        seen.contains(id),
                        seen.len() <= n,
                        (n - seen.len()) + pending@.len() == measure - 1,
                        forall|x: NodeID| x < n ==> (marked@[x as int]
                            <==> #[trigger] seen.contains(x)),
                        forall|x: NodeID| #[trigger] seen.contains(x) ==> x < n
                            && g.depends_on(x, id),
                        forall|i: int| 0 <= i < pending@.len()
                            ==> seen.contains(#[trigger] pending@[i]),
                        forall|a: NodeID, b: NodeID|
                            seen.contains(a) && !pending@.contains(a) && a != x
                                && #[trigger] g.feeds(a, b)
                                ==> seen.contains(b),
                        forall|k2: int, t: NodeParamIndex|
                            0 <= k2 < k && #[trigger] g.fan_out(x, k2).contains(t)
                                ==> seen.contains(t.0),
                        forall|j2: int| 0 <= j2 < j
                            ==> seen.contains(#[trigger] g.fan_out(x, k as int)[j2].0),
                        forall|x: NodeID| #[trigger]
                            self.cached(x) == if seen.contains(x) {
                                None
                            } else {
                                g.cached(x)
                            } || x >= n,
                    decreases m - j,
                {
                    let t = self.connections[x as usize][k][j].0;
                    proof {
                        let e = g.fan_out(x, k as int)[j as int];
                        assert(g.fan_out(x, k as int).contains(e));
                        assert(g.has_output(x, k as int));
                        assert(g.has_input(e.0, e.1 as int));
                        assert(g.source(e.0, e.1 as int) is Some);
                        assert(g.feeds(x, t));
                    }
                    if !marked[t as usize] {
                        proof {
                            g.lemma_path_extend(t, x, id);
                            vstd::set_lib::lemma_len_subset(
                                seen.insert(t),
                                Set::<NodeID>::range(0, n as NodeID),
                            );
                        }
                        let ghost snapshot = *self;
                        marked.set(t as usize, true);
                        self.outputs.set(t as usize, None);
                        proof {
                            assert forall|y: NodeID| y < n && y != t
                                implies #[trigger] self.cached(y) == snapshot.cached(y) by {
                                assert(self.outputs@[y as int] == snapshot.outputs@[y as int]);
                            }
                        }
                        let ghost pending_before = pending@;
                        pending.push(t);
                        proof {
                            seen = seen.insert(t);
                            assert forall|a: NodeID| #[trigger] pending_before.contains(a)
                                implies pending@.contains(a) by {
                                let i = pending_before.index_of(a);
                                assert(pending@[i] == a);
                            }
                            assert(pending@[pending@.len() - 1] == t);
                        }
                    }
                    j += 1;
                }
                proof {
                    assert forall|k2: int, t: NodeParamIndex|
                        0 <= k2 < k + 1 && #[trigger] g.fan_out(x, k2).contains(t)
                            implies seen.contains(t.0) by {
                        if k2 == k {
                            let j2 = g.fan_out(x, k2).index_of(t);
                            assert(seen.contains(g.fan_out(x, k as int)[j2].0));
                        }
                    }
                }
                k += 1;
            }
            proof {
                assert forall|a: NodeID, b: NodeID|
                    seen.contains(a) && !pending@.contains(a) && #[trigger] g.feeds(a, b)
                        implies seen.contains(b) by {
                    if a == x {
                        let port = choose|port: int|
                            #![trigger g.source(b, port)]
                            g.has_input(b, port) && g.source(b, port) is Some
                                && g.source(b, port).unwrap().0 == a;
                        let src = g.source(b, port).unwrap();
                        assert(g.valid_link(b, port, src));
                        assert(g.fan_out(src.0, src.1 as int).contains(NodeParamIndex(b,
                            port as usize)));
                    }
                }
            }
        }
        proof {
            assert forall|x: NodeID| #[trigger] g.depends_on(x, id) implies seen.contains(x) by {
                let w = choose|w: Seq<NodeID>| #[trigger] g.is_path(w) && w[0] == x && w.last()
                    == id;
                g.lemma_closed_holds_path(seen, w, 0);
            }
            g.lemma_wf_frame(*self);
        }
    }

    pub(crate) proof fn lemma_same_links_same_paths(self, other: Self)
        requires
            self.same_links(other),
        ensures
            forall|w: Seq<NodeID>| #[trigger] self.is_path(w) == other.is_path(w),
            forall|x: NodeID, y: NodeID| #[trigger]
                self.depends_on(x, y) == other.depends_on(x, y),
    {
        assert forall|a: NodeID, b: NodeID| #[trigger] self.feeds(a, b) == other.feeds(a, b) by {
            if self.feeds(a, b) {
                let port = choose|port: int|
                    #![trigger self.source(b, port)]
                    self.has_input(b, port) && self.source(b, port) is Some
                        && self.source(b, port).unwrap().0 == a;
                assert(self.input_types(b) == other.input_types(b));
                assert(other.source(b, port) == self.source(b, port));
            }
            if other.feeds(a, b) {
                let port = choose|port: int|
                    #![trigger other.source(b, port)]
                    other.has_input(b, port) && other.source(b, port) is Some
                        && other.source(b, port).unwrap().0 == a;
                assert(self.input_types(b) == other.input_types(b));
                assert(other.source(b, port) == self.source(b, port));
            }
        }
        assert forall|w: Seq<NodeID>| #[trigger] self.is_path(w) == other.is_path(w) by {
            if self.is_path(w) {
                assert forall|k: int| 0 <= k < w.len() - 1
                    implies #[trigger] other.feeds(w[k + 1], w[k]) by {
                    assert(self.feeds(w[k + 1], w[k]));
                }
            }
            if other.is_path(w) {
                assert forall|k: int| 0 <= k < w.len() - 1
                    implies #[trigger] self.feeds(w[k + 1], w[k]) by {
                    assert(other.feeds(w[k + 1], w[k]));
                }
            }
        }
        assert forall|x: NodeID, y: NodeID| #[trigger] self.depends_on(x, y)
            == other.depends_on(x, y) by {
            if self.depends_on(x, y) {
                let w = choose|w: Seq<NodeID>| #[trigger] self.is_path(w) && w[0] == x && w.last()
                    == y;
                assert(other.is_path(w));
            }
            if other.depends_on(x, y) {
                let w = choose|w: Seq<NodeID>| #[trigger] other.is_path(w) && w[0] == x && w.last()
                    == y;
                assert(self.is_path(w));
            }
        }
    }

    /// Links input `port` of node `id` to `src`, keeping the fan-out index in step, then drops
    /// the cached outputs of `id` and of everything downstream of it.
    #[verifier::spinoff_prover]
    fn relink(&mut self, id: NodeID, port: usize, src: Option<NodeParamIndex>)
        requires
            old(self).wf(),
            old(self).has_input(id, port as int),
            src is Some ==> old(self).valid_link(id, port as int, src.unwrap()),
        ensures
            final(self).wf(),
            final(self).relinked(*old(self), id, port as int, src),
            final(self).dropped_dependents(*old(self), id),
    {
        let ghost g = *old(self);
        let target = NodeParamIndex(id, port);
        // Every identifier below the number of nodes fits in a usize.
        let _node_count = self.nodes.len();
        let previous = self.parameters[id as usize][port];
        proof {
            assert(g.source(id, port as int) == previous);
            assert(g.has_input(id, port as int) && g.source(id, port as int) is Some
                ==> g.valid_link(id, port as int, previous.unwrap()));
        }
        if let Some(p) = previous {
            let kept = without(&self.connections[p.0 as usize][p.1], target);
            let ghost kept_view = kept@;
            self.connections[p.0 as usize].set(p.1, kept);
            proof {
                assert(self.fan_out(p.0, p.1 as int) == kept_view);
            }
        }
        let ghost s1 = *self;
        proof {
            assert forall|x: NodeID, q: int, t: NodeParamIndex| g.has_output(x, q) implies
                (#[trigger] s1.fan_out(x, q).contains(t) <==> g.fan_out(x, q).contains(t)
                    && (t != target || previous != Some(NodeParamIndex(x, q as usize)))) by {
                if previous is Some && previous.unwrap().0 == x {
                    if previous.unwrap().1 != q as usize {
                        assert(s1.connections@[x as int]@[q] == g.connections@[x as int]@[q]);
                    }
                } else {
                    assert(s1.connections@[x as int] == g.connections@[x as int]);
                }
            }
        }
        self.parameters[id as usize].set(port, src);
        let ghost s2 = *self;
        if let Some(s) = src {
            self.connections[s.0 as usize][s.1].push(target);
            proof {
                assert(self.fan_out(s.0, s.1 as int) == s2.fan_out(s.0, s.1 as int).push(target));
            }
        }
        proof {
            let h = *self;
            assert(s2.connections == s1.connections);
            assert(h.nodes == g.nodes);
            assert(h.max_node_id == g.max_node_id);
            assert forall|x: NodeID, q: int| g.has_input(x, q) implies #[trigger] h.source(x, q)
                == if x == id && q == port {
                src
            } else {
                g.source(x, q)
            } by {
                if x != id {
                    assert(h.parameters@[x as int] == g.parameters@[x as int]);
                }
            }
            assert forall|x: NodeID, q: int, t: NodeParamIndex| g.has_output(x, q) implies
                (#[trigger] h.fan_out(x, q).contains(t) <==> (g.fan_out(x, q).contains(t)
                    && t != target) || (src == Some(NodeParamIndex(x, q as usize)) && t == target))
                    by {
                assert(s1.fan_out(x, q).contains(t) <==> g.fan_out(x, q).contains(t) && (t != target
                    || previous != Some(NodeParamIndex(x, q as usize))));
                if g.fan_out(x, q).contains(target) {
                    assert(g.source(id, port as int) == Some(NodeParamIndex(x, q as usize)));
                }
                if src is Some && src.unwrap().0 == x && src.unwrap().1 == q as usize {
                    assert(h.fan_out(x, q) == s1.fan_out(x, q).push(target));
                    if s1.fan_out(x, q).contains(t) {
                        let k = s1.fan_out(x, q).index_of(t);
                        assert(h.fan_out(x, q)[k] == t);
                    }
                    if h.fan_out(x, q).contains(t) && t != target {
                        let k = h.fan_out(x, q).index_of(t);
                        assert(s1.fan_out(x, q)[k] == t);
                    }
                    assert(h.fan_out(x, q)[h.fan_out(x, q).len() - 1] == target);
                } else if src is Some && src.unwrap().0 == x {
                    assert(h.connections@[x as int]@[q] == s1.connections@[x as int]@[q]);
                } else {
                    assert(h.connections@[x as int] == s1.connections@[x as int]);
                }
            }
            assert forall|x: NodeID, q: int|
                #![trigger h.source(x, q)]
                h.has_input(x, q) && h.source(x, q) is Some implies {
                    let sp = h.source(x, q).unwrap();
                    &&& h.valid_link(x, q, sp)
                    &&& h.fan_out(sp.0, sp.1 as int).contains(NodeParamIndex(x, q as usize))
                } by {
                assert(g.has_input(x, q));
                let sp = h.source(x, q).unwrap();
                if x == id && q == port {
                    assert(h.fan_out(sp.0, sp.1 as int).contains(target));
                } else {
                    assert(g.source(x, q) == Some(sp));
                    assert(g.valid_link(x, q, sp));
                    assert(g.fan_out(sp.0, sp.1 as int).contains(NodeParamIndex(x, q as usize)));
                }
            }
            assert forall|x: NodeID, q: int, t: NodeParamIndex|
                #![trigger h.fan_out(x, q).contains(t)]
                h.has_output(x, q) && h.fan_out(x, q).contains(t) implies {
                    &&& h.has_input(t.0, t.1 as int)
                    &&& h.source(t.0, t.1 as int) == Some(NodeParamIndex(x, q as usize))
                } by {
                assert(g.has_output(x, q));
                if t != target {
                    assert(g.fan_out(x, q).contains(t));
                    assert(g.has_input(t.0, t.1 as int));
                    assert(h.source(t.0, t.1 as int) == g.source(t.0, t.1 as int));
                }
            }
            assert forall|i: int|
                0 <= i < h.nodes@.len() implies #[trigger] h.parameters@[i]@.len()
                    == h.nodes@[i].inputs@.len() <= usize::MAX by {
                assert(g.parameters@[i]@.len() == g.nodes@[i].inputs@.len());
            }
            assert forall|i: int|
                0 <= i < h.nodes@.len() implies #[trigger] h.connections@[i]@.len()
                    == h.nodes@[i].outputs@.len() <= usize::MAX by {
                assert(g.connections@[i]@.len() == g.nodes@[i].outputs@.len());
            }
            assert forall|q: int|
                0 <= q < h.evaluations@.len()
                    implies (#[trigger] h.evaluations@[q]).0 < h.nodes@.len() by {
                assert(g.evaluations@[q] == h.evaluations@[q]);
            }
            assert forall|x: NodeID| #[trigger] h.has_node(x)
                implies h.input_types(x).len() <= usize::MAX
                && h.output_types(x).len() <= usize::MAX by {
                assert(g.input_types(x) == h.input_types(x));
                assert(g.output_types(x) == h.output_types(x));
            }
            assert(h.wf());
        }
        let ghost h = *self;
        self.invalidate_dependents(id);
        proof {
            h.lemma_wf_frame(*self);
            h.lemma_same_links_same_paths(*self);
            assert(h.outputs == g.outputs);
            assert forall|x: NodeID| g.has_node(x) implies #[trigger] h.cached(x) == g.cached(x)
                by {}
        }
    }

    /// Links output `from_index` of node `from` to input `to_index` of node `to`; see
    /// `connect_outcome` for the checks and the effect.
    pub fn connect(
        &mut self,
        from: NodeID,
        from_index: usize,
        to: NodeID,
        to_index: usize,
    ) -> (r: Result<(), NodeConnectError>)
        requires
            old(self).wf(),
        ensures
            old(self).connect_outcome(*final(self), from, from_index, to, to_index, r),
    {
        if from == to {
            return Err(NodeConnectError::SelfConnect);
        }
        // Every identifier below the number of nodes fits in a usize.
        let _node_count = self.nodes.len();
        if from >= self.max_node_id {
            return Err(NodeConnectError::SourceNodeNotFound);
        }
        if to >= self.max_node_id {
            return Err(NodeConnectError::TargetNodeNotFound);
        }
        proof {
            assert(self.output_types(from).len() == self.nodes@[from as int].outputs@.len());
            assert(self.input_types(to).len() == self.nodes@[to as int].inputs@.len());
        }
        if from_index >= self.nodes[from as usize].outputs.len() {
            return Err(NodeConnectError::SourceIndexOutOfRange);
        }
        if to_index >= self.nodes[to as usize].inputs.len() {
            return Err(NodeConnectError::TargetIndexOutOfRange);
        }
        let source_type = self.nodes[from as usize].outputs[from_index].parameter_type;
        let target_type = self.nodes[to as usize].inputs[to_index].parameter_type;
        proof {
            assert(self.output_types(from)[from_index as int] == source_type);
            assert(self.input_types(to)[to_index as int] == target_type);
        }
        if source_type != target_type {
            return Err(NodeConnectError::ParameterMismatch);
        }
        self.relink(to, to_index, Some(NodeParamIndex(from, from_index)));
        Ok(())
    }

    /// Removes the link into input `target_index` of node `target_node`; see
    /// `disconnect_outcome`.
    pub fn disconnect(&mut self, target_node: NodeID, target_index: usize) -> (r: Result<
        (),
        NodeDisconnectError,
    >)
        requires
            old(self).wf(),
        ensures
            old(self).disconnect_outcome(*final(self), target_node, target_index, r),
    {
        // Every identifier below the number of nodes fits in a usize.
        let _node_count = self.nodes.len();
        if target_node >= self.max_node_id {
            return Err(NodeDisconnectError::NodeNotFound);
        }
        proof {
            assert(self.input_types(target_node).len()
                == self.nodes@[target_node as int].inputs@.len());
        }
        if target_index >= self.nodes[target_node as usize].inputs.len() {
            return Err(NodeDisconnectError::NodeNotFound);
        }
        if self.parameters[target_node as usize][target_index].is_none() {
            return Err(NodeDisconnectError::NodeNotFound);
        }
        self.relink(target_node, target_index, None);
        Ok(())
    }

}

/// `list` without any entry equal to `p`.
fn without(list: &Vec<NodeParamIndex>, p: NodeParamIndex) -> (r: Vec<NodeParamIndex>)
    ensures
        forall|x: NodeParamIndex| #[trigger] r@.contains(x) <==> (list@.contains(x) && x != p),
{
    let mut r: Vec<NodeParamIndex> = Vec::new();
    let mut i: usize = 0;
    while i < list.len()
        invariant
            i <= list@.len(),
            forall|x: NodeParamIndex| #[trigger]
                r@.contains(x) <==> (list@.subrange(0, i as int).contains(x) && x != p),
        decreases list@.len() - i,
    {
        let e = list[i];
        let ghost r_before = r@;
        if e != p {
            r.push(e);
        }
        proof {
            assert(list@.subrange(0, i + 1) =~= list@.subrange(0, i as int).push(e));
            assert forall|x: NodeParamIndex| #[trigger]
                r@.contains(x) <==> (list@.subrange(0, i + 1).contains(x) && x != p) by {
                if r@.contains(x) && !r_before.contains(x) {
                    assert(x == e);
                    assert(list@.subrange(0, i + 1)[i as int] == e);
                }
                if r_before.contains(x) {
                    let k = r_before.index_of(x);
                    assert(r@[k] == x);
                }
                if list@.subrange(0, i + 1).contains(x) && x != p {
                    let k = list@.subrange(0, i + 1).index_of(x);
                    if k < i {
                        assert(list@.subrange(0, i as int)[k] == x);
                    } else {
                        assert(r@[r@.len() - 1] == e);
                    }
                }
            }
        }
        i += 1;
    }
    proof {
        assert(list@.subrange(0, list@.len() as int) =~= list@);
    }
    r
}

} // verus!
