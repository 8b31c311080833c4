use vstd::prelude::*;
use smol_str::SmolStr;

verus! {

/// Relies on `smol_str::SmolStr` as an opaque, immutable string: port descriptors store their
/// names in it and nothing here reads them.
#[verifier::external_type_specification]
#[verifier::external_body]
pub struct ExSmolStr(SmolStr);

/// Identifier of a node inside one graph.
pub type NodeID = u64;

/// The kind of value a port carries. Two ports are compatible exactly when their kinds are
/// equal; the element type of an array kind plays no part.
#[derive(Clone, Copy, Debug, PartialEq, Eq, Structural)]
pub enum NodeParameterType {
    IntArray,
    Float64Array,
    String,
    Number,
    Bool,
    Node,
    Empty,
}

/// The kind that a type-tag token names: the name of a variant, spelled as in the source.
pub open spec fn parameter_type_named(name: Seq<char>) -> Option<NodeParameterType> {
    if name == "IntArray"@ {
        Some(NodeParameterType::IntArray)
    } else if name == "Float64Array"@ {
        Some(NodeParameterType::Float64Array)
    } else if name == "String"@ {
        Some(NodeParameterType::String)
    } else if name == "Number"@ {
        Some(NodeParameterType::Number)
    } else if name == "Bool"@ {
        Some(NodeParameterType::Bool)
    } else if name == "Node"@ {
        Some(NodeParameterType::Node)
    } else if name == "Empty"@ {
        Some(NodeParameterType::Empty)
    } else {
        None
    }
}

pub(crate) fn same_text(a: &str, b: &str) -> (r: bool)
    ensures
        r == (a@ == b@),
{
    a.to_owned() == b.to_owned()
}

impl NodeParameterType {
    /// The kind that the token `name` names, if any.
    pub fn from_name(name: &str) -> (r: Option<Self>)
        ensures
            r == parameter_type_named(name@),
    {
        if same_text(name, "IntArray") {
            Some(NodeParameterType::IntArray)
        } else if same_text(name, "Float64Array") {
            Some(NodeParameterType::Float64Array)
        } else if same_text(name, "String") {
            Some(NodeParameterType::String)
        } else if same_text(name, "Number") {
            Some(NodeParameterType::Number)
        } else if same_text(name, "Bool") {
            Some(NodeParameterType::Bool)
        } else if same_text(name, "Node") {
            Some(NodeParameterType::Node)
        } else if same_text(name, "Empty") {
            Some(NodeParameterType::Empty)
        } else {
            None
        }
    }

    /// The kinds that a list of type-tag tokens names, in order, or the position of the first
    /// token that names none.
    pub fn from_names(names: &Vec<String>) -> (r: Result<Vec<Self>, usize>)
        ensures
            match r {
                Ok(kinds) => {
                    &&& kinds@.len() == names@.len()
                    &&& forall|i: int|
                        0 <= i < names@.len() ==> parameter_type_named(#[trigger] names@[i]@)
                            == Some(kinds@[i])
                },
                Err(i) => {
                    &&& i < names@.len()
                    &&& parameter_type_named(names@[i as int]@) is None
                    &&& forall|j: int|
                        0 <= j < i ==> parameter_type_named(#[trigger] names@[j]@) is Some
                },
            },
    {
        let mut kinds: Vec<Self> = Vec::new();
        let mut i: usize = 0;
        while i < names.len()
            invariant
                i <= names@.len(),
                kinds@.len() == i,
                forall|j: int|
                    0 <= j < i ==> parameter_type_named(#[trigger] names@[j]@) == Some(kinds@[j]),
            decreases names@.len() - i,
        {
            match Self::from_name(names[i].as_str()) {
                Some(kind) => kinds.push(kind),
                None => {
                    return Err(i);
                },
            }
            i += 1;
        }
        Ok(kinds)
    }
}

/// A type-tag token that names no kind.
#[derive(Clone, Copy, Debug, PartialEq, Eq, Structural)]
pub struct UnknownParameterType;

impl std::str::FromStr for NodeParameterType {
    type Err = UnknownParameterType;

    fn from_str(s: &str) -> Result<Self, Self::Err> {
        match Self::from_name(s) {
            Some(kind) => Ok(kind),
            None => Err(UnknownParameterType),
        }
    }
}

/// Schema entry of one port: its name, a description for people, and the kind of value it carries.
#[derive(Debug)]
pub struct NodeParameterDescriptor {
    pub name: SmolStr,
    pub description: SmolStr,
    pub parameter_type: NodeParameterType,
}

impl NodeParameterDescriptor {
    pub fn new(
        name: impl Into<SmolStr>,
        description: impl Into<SmolStr>,
        parameter_type: NodeParameterType,
    ) -> (r: Self)
        ensures
            r.parameter_type == parameter_type,
    {
        NodeParameterDescriptor {
            name: name.into(),
            description: description.into(),
            parameter_type,
        }
    }
}

/// The kinds of a list of port descriptors, in port order.
pub open spec fn parameter_types(ports: Seq<NodeParameterDescriptor>) -> Seq<NodeParameterType> {
    ports.map_values(|d: NodeParameterDescriptor| d.parameter_type)
}

/// A computational unit of a graph. `inputs` holds one slot per declared input port, `None`
/// where the port has no incoming link; the result holds one value per declared output port,
/// or a description of why the node failed. A node may keep state between calls, but given
/// the same inputs and the same state it should return the same outputs: the graph calls it
/// again only after a link or a cache entry upstream has changed.
pub trait Node<V> {
    fn eval(&mut self, inputs: &[Option<V>]) -> Result<Vec<V>, String>;
}

/// Registration template of a node kind: its name, its ordered input and output schema, and
/// `node`, which makes fresh instances.
pub struct NodeDescriptor<F> {
    pub name: String,
    pub inputs: Vec<NodeParameterDescriptor>,
    pub outputs: Vec<NodeParameterDescriptor>,
    pub node: F,
}

/// A port: a node and the position of one of its inputs or outputs.
#[derive(Clone, Copy, Debug, PartialEq, Eq, Hash, Structural)]
pub struct NodeParamIndex(pub NodeID, pub usize);

} // verus!
