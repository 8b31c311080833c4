use std::str::FromStr;

use nodetool_sdk::nodes::io::file::FileTarget;

use nodetool_sdk::node::{NodeParamIndex, NodeParameterDescriptor, NodeParameterType, UnknownParameterType};

#[test]
fn type_tokens_name_kinds() {
    assert_eq!(NodeParameterType::from_name("IntArray"), Some(NodeParameterType::IntArray));
    assert_eq!(NodeParameterType::from_name("Float64Array"), Some(NodeParameterType::Float64Array));
    assert_eq!(NodeParameterType::from_name("String"), Some(NodeParameterType::String));
    assert_eq!(NodeParameterType::from_name("Number"), Some(NodeParameterType::Number));
    assert_eq!(NodeParameterType::from_name("Bool"), Some(NodeParameterType::Bool));
    assert_eq!(NodeParameterType::from_name("Node"), Some(NodeParameterType::Node));
    assert_eq!(NodeParameterType::from_name("Empty"), Some(NodeParameterType::Empty));
}

#[test]
fn unknown_type_token_is_rejected() {
    assert_eq!(NodeParameterType::from_name("number"), None);
    assert_eq!(NodeParameterType::from_name(""), None);
    assert_eq!(NodeParameterType::from_name("Numbers"), None);
    assert_eq!(NodeParameterType::from_str("Float"), Err(UnknownParameterType));
    assert_eq!("Bool".parse::<NodeParameterType>(), Ok(NodeParameterType::Bool));
}

#[test]
fn type_token_lists() {
    let names = vec!["Number".to_string(), "Number".to_string(), "String".to_string()];
    assert_eq!(
        NodeParameterType::from_names(&names),
        Ok(vec![NodeParameterType::Number, NodeParameterType::Number, NodeParameterType::String])
    );
    let bad = vec!["Bool".to_string(), "Text".to_string(), "Nope".to_string()];
    assert_eq!(NodeParameterType::from_names(&bad), Err(1));
    assert_eq!(NodeParameterType::from_names(&Vec::new()), Ok(vec![]));
}

#[test]
fn descriptor_keeps_its_fields() {
    let d = NodeParameterDescriptor::new("first", "The first input value", NodeParameterType::Number);
    assert_eq!(d.name.as_str(), "first");
    assert_eq!(d.description.as_str(), "The first input value");
    assert_eq!(d.parameter_type, NodeParameterType::Number);
}

#[test]
fn port_indices_compare_by_fields() {
    assert_eq!(NodeParamIndex(1, 2), NodeParamIndex(1, 2));
    assert_ne!(NodeParamIndex(1, 2), NodeParamIndex(2, 1));
}

#[test]
fn file_target_reopens_on_change() {
    let mut target = FileTarget::new();
    assert!(target.needs_open("/tmp/test.txt", true));
    target.opened("/tmp/test.txt", true);
    assert_eq!(target.current_path.as_deref(), Some("/tmp/test.txt"));
    assert_eq!(target.current_append, Some(true));
    assert!(!target.needs_open("/tmp/test.txt", true));
    assert!(target.needs_open("/tmp/test1.txt", true));
    assert!(target.needs_open("/tmp/test.txt", false));
}
