use std::rc::Rc;
use vstd::prelude::*;

use crate::node::{
    parameter_types, NodeDescriptor, NodeID, NodeParamIndex, NodeParameterDescriptor,
    NodeParameterType,
};

mod evaluate;
mod links;

verus! {

pub use evaluate::outputs_view;

/// Why `connect` refused a link.
#[derive(Debug, PartialEq, Eq, Structural)]
pub enum NodeConnectError {
    /// No node has the source identifier.
    SourceNodeNotFound,
    /// No node has the target identifier.
    TargetNodeNotFound,
    /// The source and the target are the same node.
    SelfConnect,
    /// The two ports carry different kinds of value.
    ParameterMismatch,
    /// The source node has no output port at that position.
    SourceIndexOutOfRange,
    /// The target node has no input port at that position.
    TargetIndexOutOfRange,
}

/// Why `disconnect` failed.
#[derive(Debug, PartialEq, Eq, Structural)]
pub enum NodeDisconnectError {
    /// The input port does not exist or has no link.
    NodeNotFound,
}

/// Why reading a node's outputs failed.
#[derive(Debug, PartialEq, Eq)]
pub enum GetNodeOutputsError {
    /// No node has that identifier.
    NodeNotFound,
    /// A node's `eval` failed, for the reason given.
    NodeExecFailure(String),
    /// Following the links upstream led back to a node still waiting for its inputs.
    CycleDetected,
    /// A link reads an output position that its source node did not produce.
    MissingOutput,
}

/// Why looking up a node's inputs failed.
#[derive(Debug, PartialEq, Eq, Structural)]
pub enum GetNodeInputsError {
    /// No node has that identifier.
    NodeNotFound,
}

/// One call of a node's `eval`: the node, the input slots it was handed, and what it returned.
pub type Evaluation<V> = (NodeID, Seq<Option<V>>, Result<Seq<V>, String>);

/// The schema pair and the instance of one registered node.
struct NodeEntry<N> {
    inputs: Vec<NodeParameterDescriptor>,
    outputs: Vec<NodeParameterDescriptor>,
    node: N,
}

/// A graph of nodes joined by typed links, evaluated on demand with a cache per node.
///
/// Node identifiers are handed out in order from zero and index every table below.
pub struct NodeGraph<V, N> {
    nodes: Vec<NodeEntry<N>>,
    /// For each node and input port, the output port that feeds it, if any.
    parameters: Vec<Vec<Option<NodeParamIndex>>>,
    /// For each node and output port, the input ports that it feeds.
    connections: Vec<Vec<Vec<NodeParamIndex>>>,
    /// Cached outputs of each node evaluated since its last invalidation.
    outputs: Vec<Option<Rc<Vec<V>>>>,
    /// The identifier the next node gets.
    max_node_id: NodeID,
    /// Every call of `eval` made by this graph, in order.
    evaluations: Ghost<Seq<Evaluation<V>>>,
}

impl<V, N> NodeGraph<V, N> {
    /// Number of nodes; the valid identifiers are the integers below it.
    pub closed spec fn len(self) -> nat {
        self.nodes@.len()
    }

    pub closed spec fn input_types(self, id: NodeID) -> Seq<NodeParameterType> {
        parameter_types(self.nodes@[id as int].inputs@)
    }

    pub closed spec fn output_types(self, id: NodeID) -> Seq<NodeParameterType> {
        parameter_types(self.nodes@[id as int].outputs@)
    }

    pub closed spec fn instance(self, id: NodeID) -> N {
        self.nodes@[id as int].node
    }

    /// The output port linked to input `port` of node `id`.
    pub closed spec fn source(self, id: NodeID, port: int) -> Option<NodeParamIndex> {
        self.parameters@[id as int]@[port]
    }

    /// The input ports fed by output `port` of node `id`.
    pub closed spec fn fan_out(self, id: NodeID, port: int) -> Seq<NodeParamIndex> {
        self.connections@[id as int]@[port]@
    }

    /// The cached outputs of node `id`.
    pub closed spec fn cached(self, id: NodeID) -> Option<Seq<V>> {
        match self.outputs@[id as int] {
            Some(r) => Some(r@),
            None => None,
        }
    }

    pub closed spec fn evaluations(self) -> Seq<Evaluation<V>> {
        self.evaluations@
    }

    pub open spec fn has_node(self, id: NodeID) -> bool {
        id < self.len()
    }

    pub open spec fn has_input(self, id: NodeID, port: int) -> bool {
        self.has_node(id) && 0 <= port < self.input_types(id).len()
    }

    pub open spec fn has_output(self, id: NodeID, port: int) -> bool {
        self.has_node(id) && 0 <= port < self.output_types(id).len()
    }

    /// A link into `(id, port)` is allowed: it comes from an existing output port of another
    /// node, of the same kind.
    pub open spec fn valid_link(self, id: NodeID, port: int, src: NodeParamIndex) -> bool {
        &&& self.has_output(src.0, src.1 as int)
        &&& src.0 != id
        &&& self.output_types(src.0)[src.1 as int] == self.input_types(id)[port]
    }

    /// Every port count fits in a usize; every link joins existing ports of two different nodes
    /// that carry the same kind; and the fan-out index of each output port lists exactly the
    /// input ports linked to it.
    pub open spec fn links_consistent(self) -> bool {
        &&& forall|id: NodeID|
            #![trigger self.input_types(id)]
            #![trigger self.output_types(id)]
            self.has_node(id) ==> self.input_types(id).len() <= usize::MAX
                && self.output_types(id).len() <= usize::MAX
        &&& forall|id: NodeID, port: int|
            #![trigger self.source(id, port)]
            self.has_input(id, port) && self.source(id, port) is Some ==> {
                let src = self.source(id, port).unwrap();
                &&& self.valid_link(id, port, src)
                &&& self.fan_out(src.0, src.1 as int).contains(NodeParamIndex(id, port as usize))
            }
        &&& forall|id: NodeID, port: int, t: NodeParamIndex|
            #![trigger self.fan_out(id, port).contains(t)]
            self.has_output(id, port) && self.fan_out(id, port).contains(t) ==> {
                &&& self.has_input(t.0, t.1 as int)
                &&& self.source(t.0, t.1 as int) == Some(NodeParamIndex(id, port as usize))
            }
    }

    /// The tables agree in size with the nodes, the links are consistent, and every recorded
    /// evaluation is of an existing node.
    pub closed spec fn wf(self) -> bool {
        &&& self.max_node_id == self.nodes@.len()
        &&& self.parameters@.len() == self.nodes@.len()
        &&& self.connections@.len() == self.nodes@.len()
        &&& self.outputs@.len() == self.nodes@.len()
        &&& forall|i: int|
            0 <= i < self.nodes@.len() ==> #[trigger] self.parameters@[i]@.len()
                == self.nodes@[i].inputs@.len() <= usize::MAX
        &&& forall|i: int|
            0 <= i < self.nodes@.len() ==> #[trigger] self.connections@[i]@.len()
                == self.nodes@[i].outputs@.len() <= usize::MAX
        &&& self.links_consistent()
        &&& forall|q: int|
            0 <= q < self.evaluations@.len() ==> (#[trigger] self.evaluations@[q]).0
                < self.nodes@.len()
    }

    /// In a well-formed graph, links are consistent with the schemas and the fan-out index is
    /// the exact reverse of the links.
    pub proof fn lemma_links_consistent(self)
        requires
            self.wf(),
        ensures
            self.links_consistent(),
    {
    }

    /// Replacing the cache or extending the record of evaluations keeps a graph well formed.
    proof fn lemma_wf_frame(self, other: Self)
        requires
            self.wf(),
            other.nodes@.len() == self.nodes@.len(),
            forall|i: int|
                0 <= i < self.nodes@.len() ==> (#[trigger] other.nodes@[i]).inputs
                    == self.nodes@[i].inputs && other.nodes@[i].outputs == self.nodes@[i].outputs,
            other.parameters == self.parameters,
            other.connections == self.connections,
            other.max_node_id == self.max_node_id,
            other.outputs@.len() == self.outputs@.len(),
            forall|q: int|
                0 <= q < other.evaluations@.len() ==> (#[trigger] other.evaluations@[q]).0
                    < other.nodes@.len(),
        ensures
            other.wf(),
            other.same_links(self),
    {
        assert forall|id: NodeID, port: int|
            #![trigger other.source(id, port)]
            other.has_input(id, port) && other.source(id, port) is Some implies {
                let src = other.source(id, port).unwrap();
                &&& other.valid_link(id, port, src)
                &&& other.fan_out(src.0, src.1 as int).contains(NodeParamIndex(id, port as usize))
            } by {
            assert(other.nodes@[id as int].inputs == self.nodes@[id as int].inputs);
            assert(self.source(id, port) == other.source(id, port));
            assert(self.has_input(id, port));
            let src = other.source(id, port).unwrap();
            assert(self.valid_link(id, port, src));
            assert(other.nodes@[src.0 as int].outputs == self.nodes@[src.0 as int].outputs);
        }
        assert forall|id: NodeID, port: int, t: NodeParamIndex|
            #![trigger other.fan_out(id, port).contains(t)]
            other.has_output(id, port) && other.fan_out(id, port).contains(t) implies {
                &&& other.has_input(t.0, t.1 as int)
                &&& other.source(t.0, t.1 as int) == Some(NodeParamIndex(id, port as usize))
            } by {
            assert(other.nodes@[id as int].outputs == self.nodes@[id as int].outputs);
            assert(self.fan_out(id, port) == other.fan_out(id, port));
            assert(self.has_output(id, port));
            assert(self.has_input(t.0, t.1 as int));
            assert(other.nodes@[t.0 as int].inputs == self.nodes@[t.0 as int].inputs);
        }
        assert forall|id: NodeID| #[trigger] other.has_node(id) implies {
            &&& other.input_types(id) == self.input_types(id)
            &&& other.output_types(id) == self.output_types(id)
        } by {
            assert(other.nodes@[id as int].inputs == self.nodes@[id as int].inputs);
            assert(other.nodes@[id as int].outputs == self.nodes@[id as int].outputs);
        }
        assert forall|i: int|
            0 <= i < other.nodes@.len() implies #[trigger] other.parameters@[i]@.len()
                == other.nodes@[i].inputs@.len() <= usize::MAX by {
            assert(other.nodes@[i].inputs == self.nodes@[i].inputs);
            assert(self.parameters@[i]@.len() == self.nodes@[i].inputs@.len());
        }
        assert forall|i: int|
            0 <= i < other.nodes@.len() implies #[trigger] other.connections@[i]@.len()
                == other.nodes@[i].outputs@.len() <= usize::MAX by {
            assert(other.nodes@[i].outputs == self.nodes@[i].outputs);
            assert(self.connections@[i]@.len() == self.nodes@[i].outputs@.len());
        }
    }

    /// Every node of `before` is in `self` with the same schema, instance, links, fan-out and
    /// cached outputs.
    pub open spec fn keeps(self, before: Self) -> bool {
        &&& forall|id: NodeID|
            #![trigger self.input_types(id)]
            #![trigger self.output_types(id)]
            #![trigger self.instance(id)]
            #![trigger self.cached(id)]
            before.has_node(id) ==> {
                &&& self.input_types(id) == before.input_types(id)
                &&& self.output_types(id) == before.output_types(id)
                &&& self.instance(id) == before.instance(id)
                &&& self.cached(id) == before.cached(id)
            }
        &&& forall|id: NodeID, port: int|
            before.has_input(id, port) ==> #[trigger] self.source(id, port)
                == before.source(id, port)
        &&& forall|id: NodeID, port: int|
            before.has_output(id, port) ==> #[trigger] self.fan_out(id, port) == before.fan_out(
                id,
                port,
            )
    }

    /// `self` and `other` hold the same node instances.
    pub open spec fn same_instances(self, other: Self) -> bool {
        forall|id: NodeID| self.has_node(id) ==> #[trigger] self.instance(id) == other.instance(id)
    }

    /// `self` and `other` hold the same nodes, with the same schemas and links.
    pub open spec fn same_links(self, other: Self) -> bool {
        &&& self.len() == other.len()
        &&& forall|id: NodeID|
            #![trigger self.input_types(id)]
            #![trigger other.input_types(id)]
            #![trigger self.output_types(id)]
            #![trigger other.output_types(id)]
            self.has_node(id) ==> {
                &&& self.input_types(id) == other.input_types(id)
                &&& self.output_types(id) == other.output_types(id)
            }
        &&& forall|id: NodeID, port: int|
            self.has_input(id, port) ==> #[trigger] self.source(id, port) == other.source(id, port)
        &&& forall|id: NodeID, port: int|
            self.has_output(id, port) ==> #[trigger] self.fan_out(id, port) == other.fan_out(
                id,
                port,
            )
    }

    /// An empty graph.
    pub fn new() -> (r: Self)
        ensures
            r.wf(),
            r.len() == 0,
            r.evaluations() == Seq::<Evaluation<V>>::empty(),
    {
        NodeGraph {
            nodes: Vec::new(),
            parameters: Vec::new(),
            connections: Vec::new(),
            outputs: Vec::new(),
            max_node_id: 0,
            evaluations: Ghost(Seq::empty()),
        }
    }

    /// The identifier that the next `add` hands out, which is also the number of nodes.
    pub fn max_node_id(&self) -> (r: NodeID)
        requires
            self.wf(),
        ensures
            r == self.len(),
    {
        self.max_node_id
    }

    /// Registers `node` under the schema of `descriptor` and returns its new identifier, one
    /// above the previous one. The node starts with no links and no cached outputs.
    pub fn add<F>(&mut self, descriptor: NodeDescriptor<F>, node: N) -> (id: NodeID)
        requires
            old(self).wf(),
            old(self).len() < u64::MAX,
        ensures
            final(self).wf(),
            id == old(self).len(),
            final(self).len() == old(self).len() + 1,
            final(self).input_types(id) == parameter_types(descriptor.inputs@),
            final(self).output_types(id) == parameter_types(descriptor.outputs@),
            final(self).instance(id) == node,
            forall|port: int|
                0 <= port < descriptor.inputs@.len() ==> #[trigger] final(self).source(id, port)
                    is None,
            forall|port: int|
                0 <= port < descriptor.outputs@.len() ==> #[trigger] final(self).fan_out(
                    id,
                    port,
                ).len() == 0,
            final(self).cached(id) is None,
            final(self).keeps(*old(self)),
            final(self).evaluations() == old(self).evaluations(),
    {
        let id = self.max_node_id;
        let NodeDescriptor { name: _, inputs, outputs, node: _ } = descriptor;
        let mut sources: Vec<Option<NodeParamIndex>> = Vec::new();
        let mut i: usize = 0;
        while i < inputs.len()
            invariant
                i <= inputs@.len(),
                sources@.len() == i,
                forall|p: int| 0 <= p < i ==> sources@[p] is None,
            decreases inputs@.len() - i,
        {
            sources.push(None);
            i += 1;
        }
        let mut targets: Vec<Vec<NodeParamIndex>> = Vec::new();
        let mut k: usize = 0;
        while k < outputs.len()
            invariant
                k <= outputs@.len(),
                targets@.len() == k,
                forall|p: int| 0 <= p < k ==> (#[trigger] targets@[p])@.len() == 0,
            decreases outputs@.len() - k,
        {
            targets.push(Vec::new());
            k += 1;
        }
        self.nodes.push(NodeEntry { inputs, outputs, node });
        self.parameters.push(sources);
        self.connections.push(targets);
        self.outputs.push(None);
        self.max_node_id = id + 1;
        proof {
            let g = *self;
            let o = *old(self);
            assert(g.input_types(id) == parameter_types(descriptor.inputs@));
            assert forall|x: NodeID| #[trigger] g.has_node(x)
                implies g.input_types(x).len() <= usize::MAX
                && g.output_types(x).len() <= usize::MAX by {
                if x != id {
                    assert(o.input_types(x) == g.input_types(x));
                    assert(o.output_types(x) == g.output_types(x));
                }
            }
            assert forall|i: int|
                0 <= i < g.nodes@.len() implies #[trigger] g.parameters@[i]@.len()
                    == g.nodes@[i].inputs@.len() <= usize::MAX by {
                if i < o.nodes@.len() {
                    assert(o.parameters@[i]@.len() == o.nodes@[i].inputs@.len());
                }
            }
            assert forall|i: int|
                0 <= i < g.nodes@.len() implies #[trigger] g.connections@[i]@.len()
                    == g.nodes@[i].outputs@.len() <= usize::MAX by {
                if i < o.nodes@.len() {
                    assert(o.connections@[i]@.len() == o.nodes@[i].outputs@.len());
                }
            }
            assert forall|x: NodeID, port: int|
                #![trigger g.source(x, port)]
                g.has_input(x, port) && g.source(x, port) is Some implies {
                    let src = g.source(x, port).unwrap();
                    &&& g.valid_link(x, port, src)
                    &&& g.fan_out(src.0, src.1 as int).contains(NodeParamIndex(x, port as usize))
                } by {
                assert(x != id);
                assert(o.has_input(x, port) && o.source(x, port) == g.source(x, port));
                let src = g.source(x, port).unwrap();
                assert(o.valid_link(x, port, src));
                assert(o.fan_out(src.0, src.1 as int).contains(NodeParamIndex(x, port as usize)));
            }
            assert forall|x: NodeID, port: int, t: NodeParamIndex|
                #![trigger g.fan_out(x, port).contains(t)]
                g.has_output(x, port) && g.fan_out(x, port).contains(t) implies {
                    &&& g.has_input(t.0, t.1 as int)
                    &&& g.source(t.0, t.1 as int) == Some(NodeParamIndex(x, port as usize))
                } by {
                if x == id {
                    assert(g.fan_out(x, port).len() == 0);
                } else {
                    assert(o.fan_out(x, port).contains(t));
                }
            }
            assert forall|q: int|
                0 <= q < g.evaluations@.len() implies (#[trigger] g.evaluations@[q]).0
                    < g.nodes@.len() by {
                assert(o.evaluations@[q] == g.evaluations@[q]);
            }
        }
        id
    }

    /// Drops the cached outputs of node `node_id` and of nothing else; an unknown identifier
    /// or a node with nothing cached leaves the graph as it is.
    pub fn invalidate_node(&mut self, node_id: NodeID)
        requires
            old(self).wf(),
        ensures
            final(self).wf(),
            final(self).same_links(*old(self)),
            final(self).same_instances(*old(self)),
            final(self).evaluations() == old(self).evaluations(),
            forall|x: NodeID|
                final(self).has_node(x) ==> #[trigger] final(self).cached(x) == if x == node_id {
                    None
                } else {
                    old(self).cached(x)
                },
    {
        // Every identifier below the number of nodes fits in a usize.
        let _node_count = self.outputs.len();
        if node_id < self.max_node_id {
            self.outputs.set(node_id as usize, None);
        }
        proof {
            old(self).lemma_wf_frame(*self);
        }
    }
}

impl<V, N> Default for NodeGraph<V, N> {
    fn default() -> (r: Self)
        ensures
            r.wf(),
            r.len() == 0,
            r.evaluations() == Seq::<Evaluation<V>>::empty(),
    {
        Self::new()
    }
}

} // verus!
