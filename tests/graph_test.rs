use std::cell::RefCell;
use std::rc::Rc;

use nodetool_sdk::node::{Node, NodeDescriptor, NodeParameterDescriptor, NodeParameterType};
use nodetool_sdk::node_graph::{
    GetNodeOutputsError, NodeConnectError, NodeDisconnectError, NodeGraph,
};

#[derive(Clone, Debug, PartialEq)]
enum Value {
    Number(f64),
    Text(String),
}

enum Kind {
    Constant(f64),
    Add,
    Echo,
    Fail,
    Short,
}

type Calls = Rc<RefCell<Vec<Vec<Option<Value>>>>>;

struct TestNode {
    kind: Kind,
    calls: Calls,
}

impl Node<Value> for TestNode {
    fn eval(&mut self, inputs: &[Option<Value>]) -> Result<Vec<Value>, String> {
        self.calls.borrow_mut().push(inputs.to_vec());
        match &self.kind {
            Kind::Constant(v) => Ok(vec![Value::Number(*v)]),
            Kind::Add => match (&inputs[0], &inputs[1]) {
                (Some(Value::Number(a)), Some(Value::Number(b))) => Ok(vec![Value::Number(a + b)]),
                _ => Err("invalid parameter type".to_string()),
            },
            Kind::Echo => Ok(inputs
                .iter()
                .map(|slot| slot.clone().unwrap_or(Value::Text("none".to_string())))
                .collect()),
            Kind::Fail => Err("boom".to_string()),
            Kind::Short => Ok(vec![]),
        }
    }
}

type Graph = NodeGraph<Value, TestNode>;

fn ports(kinds: &[NodeParameterType]) -> Vec<NodeParameterDescriptor> {
    kinds
        .iter()
        .map(|k| NodeParameterDescriptor::new("port", "a port", *k))
        .collect()
}

fn descriptor(inputs: &[NodeParameterType], outputs: &[NodeParameterType]) -> NodeDescriptor<()> {
    NodeDescriptor {
        name: "test".to_string(),
        inputs: ports(inputs),
        outputs: ports(outputs),
        node: (),
    }
}

fn add_node(graph: &mut Graph, kind: Kind, inputs: &[NodeParameterType], outputs: &[NodeParameterType]) -> (u64, Calls) {
    let calls: Calls = Rc::new(RefCell::new(Vec::new()));
    let node = TestNode { kind, calls: calls.clone() };
    (graph.add(descriptor(inputs, outputs), node), calls)
}

use NodeParameterType::{Bool, Number, String as Str};

fn new_const(graph: &mut Graph, value: f64) -> (u64, Calls) {
    add_node(graph, Kind::Constant(value), &[Number], &[Number])
}

fn first_number(outputs: &[Value]) -> f64 {
    match outputs.get(0).unwrap() {
        Value::Number(n) => *n,
        other => panic!("not a number: {:?}", other),
    }
}

#[test]
pub fn test_add() {
    let mut node_graph: Graph = NodeGraph::new();

    let (const1, _) = new_const(&mut node_graph, 1.0);
    let (const2, _) = new_const(&mut node_graph, 1.0);

    assert_ne!(const1, const2, "the IDs cannot be the same for two new nodes");

    let (add_node_id, add_calls) = add_node(&mut node_graph, Kind::Add, &[Number, Number], &[Number]);

    node_graph.connect(const1, 0, add_node_id, 0).unwrap();
    node_graph.connect(const2, 0, add_node_id, 1).unwrap();

    let output = node_graph.get_node_outputs(add_node_id).unwrap();
    assert_eq!(first_number(&output), 2.0);

    let (const3, _) = new_const(&mut node_graph, 3.0);

    node_graph.disconnect(add_node_id, 0).unwrap();
    node_graph.connect(const3, 0, add_node_id, 0).unwrap();

    let output = node_graph.get_node_outputs(add_node_id).unwrap();
    assert_eq!(first_number(&output), 4.0);
    assert_eq!(add_calls.borrow().len(), 2);
}

#[test]
fn ids_are_handed_out_in_order() {
    let mut graph: Graph = NodeGraph::new();
    assert_eq!(graph.max_node_id(), 0);
    let (a, _) = new_const(&mut graph, 1.0);
    let (b, _) = new_const(&mut graph, 2.0);
    let (c, _) = new_const(&mut graph, 3.0);
    assert_eq!((a, b, c), (0, 1, 2));
    assert_eq!(graph.max_node_id(), 3);
    let default_graph: Graph = NodeGraph::default();
    assert_eq!(default_graph.max_node_id(), 0);
}

#[test]
fn connect_to_itself_fails() {
    let mut graph: Graph = NodeGraph::new();
    let (a, _) = add_node(&mut graph, Kind::Echo, &[Number, Number], &[Number, Number]);
    assert_eq!(graph.connect(a, 0, a, 0), Err(NodeConnectError::SelfConnect));
    assert_eq!(graph.connect(a, 1, a, 0), Err(NodeConnectError::SelfConnect));
    assert_eq!(graph.connect(a, 7, a, 9), Err(NodeConnectError::SelfConnect));
    assert_eq!(graph.connect(5, 0, 5, 0), Err(NodeConnectError::SelfConnect));
}

#[test]
fn connect_unknown_nodes_fails() {
    let mut graph: Graph = NodeGraph::new();
    let (a, _) = new_const(&mut graph, 1.0);
    assert_eq!(graph.connect(9, 0, a, 0), Err(NodeConnectError::SourceNodeNotFound));
    assert_eq!(graph.connect(9, 5, a, 5), Err(NodeConnectError::SourceNodeNotFound));
    assert_eq!(graph.connect(a, 0, 9, 0), Err(NodeConnectError::TargetNodeNotFound));
    assert_eq!(graph.connect(a, 5, 9, 5), Err(NodeConnectError::TargetNodeNotFound));
    assert_eq!(graph.connect(8, 0, 9, 0), Err(NodeConnectError::SourceNodeNotFound));
}

#[test]
fn connect_port_out_of_range_fails() {
    let mut graph: Graph = NodeGraph::new();
    let (a, _) = new_const(&mut graph, 1.0);
    let (b, _) = add_node(&mut graph, Kind::Add, &[Number, Number], &[Number]);
    assert_eq!(graph.connect(a, 1, b, 0), Err(NodeConnectError::SourceIndexOutOfRange));
    assert_eq!(graph.connect(a, 0, b, 2), Err(NodeConnectError::TargetIndexOutOfRange));
}

#[test]
fn connect_requires_equal_kinds() {
    let mut graph: Graph = NodeGraph::new();
    let (text, _) = add_node(&mut graph, Kind::Echo, &[], &[Str]);
    let (flag, _) = add_node(&mut graph, Kind::Echo, &[], &[Bool]);
    let (num, _) = new_const(&mut graph, 1.0);
    let (target, _) = add_node(&mut graph, Kind::Echo, &[Str, Number], &[Str, Number]);
    assert_eq!(graph.connect(flag, 0, target, 0), Err(NodeConnectError::ParameterMismatch));
    assert_eq!(graph.connect(num, 0, target, 0), Err(NodeConnectError::ParameterMismatch));
    assert_eq!(graph.connect(text, 0, target, 1), Err(NodeConnectError::ParameterMismatch));
    assert_eq!(graph.connect(text, 0, target, 0), Ok(()));
    assert_eq!(graph.connect(num, 0, target, 1), Ok(()));
}

#[test]
fn unlinked_input_reads_none() {
    let mut graph: Graph = NodeGraph::new();
    let (num, _) = new_const(&mut graph, 5.0);
    let (echo, calls) = add_node(&mut graph, Kind::Echo, &[Number, Number], &[Number, Number]);
    graph.connect(num, 0, echo, 1).unwrap();
    let out = graph.get_node_outputs(echo).unwrap();
    assert_eq!(calls.borrow()[0], vec![None, Some(Value::Number(5.0))]);
    assert_eq!(*out, vec![Value::Text("none".to_string()), Value::Number(5.0)]);
}

#[test]
fn second_read_is_served_from_cache() {
    let mut graph: Graph = NodeGraph::new();
    let (a, a_calls) = new_const(&mut graph, 1.0);
    let (b, b_calls) = add_node(&mut graph, Kind::Echo, &[Number], &[Number]);
    graph.connect(a, 0, b, 0).unwrap();
    let first = graph.get_node_outputs(b).unwrap();
    let second = graph.get_node_outputs(b).unwrap();
    assert!(Rc::ptr_eq(&first, &second));
    assert_eq!(*first, *second);
    assert_eq!(b_calls.borrow().len(), 1);
    assert_eq!(a_calls.borrow().len(), 1);
}

#[test]
fn relinked_input_is_read_again_once() {
    let mut graph: Graph = NodeGraph::new();
    let (a, _) = new_const(&mut graph, 1.0);
    let (b, _) = new_const(&mut graph, 7.0);
    let (echo, calls) = add_node(&mut graph, Kind::Echo, &[Number], &[Number]);
    graph.connect(a, 0, echo, 0).unwrap();
    assert_eq!(first_number(&graph.get_node_outputs(echo).unwrap()), 1.0);
    graph.disconnect(echo, 0).unwrap();
    graph.connect(b, 0, echo, 0).unwrap();
    assert_eq!(first_number(&graph.get_node_outputs(echo).unwrap()), 7.0);
    assert_eq!(calls.borrow().len(), 2);
    assert_eq!(first_number(&graph.get_node_outputs(echo).unwrap()), 7.0);
    assert_eq!(calls.borrow().len(), 2);
}

#[test]
fn fan_out_delivers_one_value() {
    let mut graph: Graph = NodeGraph::new();
    let (src, src_calls) = new_const(&mut graph, 2.5);
    let (left, left_calls) = add_node(&mut graph, Kind::Echo, &[Number], &[Number]);
    let (right, right_calls) = add_node(&mut graph, Kind::Echo, &[Number, Number], &[Number, Number]);
    let (sum, _) = add_node(&mut graph, Kind::Add, &[Number, Number], &[Number]);
    graph.connect(src, 0, left, 0).unwrap();
    graph.connect(src, 0, right, 1).unwrap();
    graph.connect(left, 0, sum, 0).unwrap();
    graph.connect(right, 1, sum, 1).unwrap();
    assert_eq!(first_number(&graph.get_node_outputs(sum).unwrap()), 5.0);
    assert_eq!(left_calls.borrow()[0][0], Some(Value::Number(2.5)));
    assert_eq!(right_calls.borrow()[0][1], Some(Value::Number(2.5)));
    assert_eq!(src_calls.borrow().len(), 1);
}

#[test]
fn cycle_is_detected() {
    let mut graph: Graph = NodeGraph::new();
    let (a, a_calls) = add_node(&mut graph, Kind::Echo, &[Number], &[Number]);
    let (b, b_calls) = add_node(&mut graph, Kind::Echo, &[Number], &[Number]);
    graph.connect(b, 0, a, 0).unwrap();
    graph.connect(a, 0, b, 0).unwrap();
    assert_eq!(graph.get_node_outputs(a), Err(GetNodeOutputsError::CycleDetected));
    assert_eq!(graph.get_node_outputs(b), Err(GetNodeOutputsError::CycleDetected));
    assert_eq!(a_calls.borrow().len(), 0);
    assert_eq!(b_calls.borrow().len(), 0);
}

#[test]
fn reading_unknown_node_fails() {
    let mut graph: Graph = NodeGraph::new();
    assert_eq!(graph.get_node_outputs(0), Err(GetNodeOutputsError::NodeNotFound));
    new_const(&mut graph, 1.0);
    assert_eq!(graph.get_node_outputs(1), Err(GetNodeOutputsError::NodeNotFound));
}

#[test]
fn failed_eval_is_reported_and_retried() {
    let mut graph: Graph = NodeGraph::new();
    let (bad, calls) = add_node(&mut graph, Kind::Fail, &[], &[Number]);
    let (echo, echo_calls) = add_node(&mut graph, Kind::Echo, &[Number], &[Number]);
    graph.connect(bad, 0, echo, 0).unwrap();
    assert_eq!(
        graph.get_node_outputs(echo),
        Err(GetNodeOutputsError::NodeExecFailure("boom".to_string()))
    );
    assert_eq!(
        graph.get_node_outputs(bad),
        Err(GetNodeOutputsError::NodeExecFailure("boom".to_string()))
    );
    assert_eq!(calls.borrow().len(), 2);
    assert_eq!(echo_calls.borrow().len(), 0);
}

#[test]
fn short_output_is_reported() {
    let mut graph: Graph = NodeGraph::new();
    let (short, _) = add_node(&mut graph, Kind::Short, &[], &[Number]);
    let (echo, _) = add_node(&mut graph, Kind::Echo, &[Number], &[Number]);
    graph.connect(short, 0, echo, 0).unwrap();
    assert_eq!(graph.get_node_outputs(echo), Err(GetNodeOutputsError::MissingOutput));
}

#[test]
fn disconnect_without_link_fails() {
    let mut graph: Graph = NodeGraph::new();
    let (a, _) = new_const(&mut graph, 1.0);
    let (b, _) = add_node(&mut graph, Kind::Echo, &[Number], &[Number]);
    assert_eq!(graph.disconnect(b, 0), Err(NodeDisconnectError::NodeNotFound));
    assert_eq!(graph.disconnect(b, 3), Err(NodeDisconnectError::NodeNotFound));
    assert_eq!(graph.disconnect(9, 0), Err(NodeDisconnectError::NodeNotFound));
    graph.connect(a, 0, b, 0).unwrap();
    assert_eq!(graph.disconnect(b, 0), Ok(()));
    assert_eq!(graph.disconnect(b, 0), Err(NodeDisconnectError::NodeNotFound));
}

#[test]
fn disconnected_input_reads_none() {
    let mut graph: Graph = NodeGraph::new();
    let (a, _) = new_const(&mut graph, 1.0);
    let (echo, calls) = add_node(&mut graph, Kind::Echo, &[Number], &[Number]);
    graph.connect(a, 0, echo, 0).unwrap();
    graph.get_node_outputs(echo).unwrap();
    graph.disconnect(echo, 0).unwrap();
    let out = graph.get_node_outputs(echo).unwrap();
    assert_eq!(*out, vec![Value::Text("none".to_string())]);
    assert_eq!(calls.borrow().len(), 2);
    assert_eq!(calls.borrow()[1], vec![None]);
}

#[test]
fn invalidate_node_forces_one_node_to_recompute() {
    let mut graph: Graph = NodeGraph::new();
    let (a, a_calls) = new_const(&mut graph, 1.0);
    let (b, b_calls) = add_node(&mut graph, Kind::Echo, &[Number], &[Number]);
    graph.connect(a, 0, b, 0).unwrap();
    graph.get_node_outputs(b).unwrap();
    graph.invalidate_node(b);
    graph.invalidate_node(42);
    graph.get_node_outputs(b).unwrap();
    assert_eq!(b_calls.borrow().len(), 2);
    assert_eq!(a_calls.borrow().len(), 1);
    graph.invalidate_node(a);
    graph.get_node_outputs(b).unwrap();
    assert_eq!(b_calls.borrow().len(), 2);
    assert_eq!(a_calls.borrow().len(), 1);
}

#[test]
fn connect_drops_downstream_caches() {
    let mut graph: Graph = NodeGraph::new();
    let (a, _) = new_const(&mut graph, 1.0);
    let (b, _) = new_const(&mut graph, 2.0);
    let (mid, mid_calls) = add_node(&mut graph, Kind::Echo, &[Number], &[Number]);
    let (end, end_calls) = add_node(&mut graph, Kind::Echo, &[Number], &[Number]);
    graph.connect(a, 0, mid, 0).unwrap();
    graph.connect(mid, 0, end, 0).unwrap();
    assert_eq!(first_number(&graph.get_node_outputs(end).unwrap()), 1.0);
    graph.connect(b, 0, mid, 0).unwrap();
    assert_eq!(first_number(&graph.get_node_outputs(end).unwrap()), 2.0);
    assert_eq!(mid_calls.borrow().len(), 2);
    assert_eq!(end_calls.borrow().len(), 2);
}

#[test]
fn connect_replaces_earlier_link() {
    let mut graph: Graph = NodeGraph::new();
    let (a, _) = new_const(&mut graph, 1.0);
    let (b, _) = new_const(&mut graph, 9.0);
    let (echo, _) = add_node(&mut graph, Kind::Echo, &[Number], &[Number]);
    graph.connect(a, 0, echo, 0).unwrap();
    graph.connect(b, 0, echo, 0).unwrap();
    assert_eq!(first_number(&graph.get_node_outputs(echo).unwrap()), 9.0);
    graph.disconnect(echo, 0).unwrap();
    assert_eq!(graph.disconnect(echo, 0), Err(NodeDisconnectError::NodeNotFound));
}

#[test]
fn disconnect_drops_downstream_caches() {
    let mut graph: Graph = NodeGraph::new();
    let (a, _) = new_const(&mut graph, 1.0);
    let (mid, _) = add_node(&mut graph, Kind::Echo, &[Number], &[Number]);
    let (end, end_calls) = add_node(&mut graph, Kind::Echo, &[Number], &[Number]);
    graph.connect(a, 0, mid, 0).unwrap();
    graph.connect(mid, 0, end, 0).unwrap();
    assert_eq!(first_number(&graph.get_node_outputs(end).unwrap()), 1.0);
    graph.disconnect(mid, 0).unwrap();
    assert_eq!(*graph.get_node_outputs(end).unwrap(), vec![Value::Text("none".to_string())]);
    assert_eq!(end_calls.borrow().len(), 2);
}
