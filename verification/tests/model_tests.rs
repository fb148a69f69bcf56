use std::collections::HashMap;

use bdl::{
    BdlBranchOption, BdlCondition, BdlContentElement, BdlDestination, BdlDocument, BdlError,
    BdlMetadata, BdlNode, BdlValue,
};

#[test]
fn test_document_creation() {
    // Test empty document
    let doc = BdlDocument::new(None);
    assert!(doc.metadata.topic.is_none());
    assert!(doc.metadata.description.is_none());
    assert!(doc.metadata.author.is_none());
    assert!(doc.metadata.version.is_none());
    assert!(doc.metadata.required.is_none());
    assert!(doc.global_vars.is_none());
    assert!(doc.local_vars.is_empty());
    assert!(doc.nodes.is_empty());

    // Test document with metadata
    let metadata = BdlMetadata {
        topic: Some("Test Topic".to_string()),
        description: Some("Test Description".to_string()),
        author: Some("Test Author".to_string()),
        version: Some("1.0".to_string()),
        required: Some(vec!["dep1.bdl".to_string()]),
    };
    let doc = BdlDocument::new(Some(metadata.clone()));
    assert_eq!(doc.metadata.topic, Some("Test Topic".to_string()));
    assert_eq!(doc.metadata.description, Some("Test Description".to_string()));
    assert_eq!(doc.metadata.author, Some("Test Author".to_string()));
    assert_eq!(doc.metadata.version, Some("1.0".to_string()));
    assert_eq!(doc.metadata.required, Some(vec!["dep1.bdl".to_string()]));
}

#[test]
fn test_node_management() {
    let mut doc = BdlDocument::new(None);

    // Test adding a node
    let mut node = BdlNode::new("test_node".to_string());
    node.add_content(BdlContentElement::Text("Hello".to_string()));
    node.add_content(BdlContentElement::Variable("user".to_string()));
    node.add_option(BdlBranchOption {
        keywords: vec!["next".to_string()],
        destination: BdlDestination::Node("next_node".to_string()),
        condition: None,
    });

    assert!(doc.add_node(node.clone()).is_ok());

    // Test duplicate node error
    assert!(matches!(doc.add_node(node), Err(BdlError::NodeError(_))));
}

#[test]
fn test_node_content() {
    let mut node = BdlNode::new("test".to_string());

    // Test adding different types of content
    node.add_content(BdlContentElement::Text("Hello ".to_string()));
    node.add_content(BdlContentElement::Variable("name".to_string()));
    node.add_content(BdlContentElement::FunctionCall {
        name: "getTime".to_string(),
        result_vars: vec!["time".to_string()],
    });

    assert_eq!(node.content.len(), 3);

    // Verify content types
    assert!(matches!(node.content[0], BdlContentElement::Text(_)));
    assert!(matches!(node.content[1], BdlContentElement::Variable(_)));
    assert!(matches!(node.content[2], BdlContentElement::FunctionCall { .. }));
}

#[test]
fn test_branch_options() {
    let mut node = BdlNode::new("test".to_string());

    // Test node destination
    node.add_option(BdlBranchOption {
        keywords: vec!["next".to_string()],
        destination: BdlDestination::Node("next_node".to_string()),
        condition: None,
    });

    // Test file transfer destination
    node.add_option(BdlBranchOption {
        keywords: vec!["goto".to_string()],
        destination: BdlDestination::FileTransfer {
            file: "other.bdl".to_string(),
            node: "start".to_string(),
        },
        condition: None,
    });

    // Test exit destination
    node.add_option(BdlBranchOption {
        keywords: vec!["quit".to_string()],
        destination: BdlDestination::Exit,
        condition: Some(BdlCondition { variable: "can_exit".to_string() }),
    });

    assert_eq!(node.options.len(), 3);

    // Verify destinations
    assert!(matches!(node.options[0].destination, BdlDestination::Node(_)));
    assert!(matches!(node.options[1].destination, BdlDestination::FileTransfer { .. }));
    assert!(matches!(node.options[2].destination, BdlDestination::Exit));
}

#[test]
fn test_value_types() {
    let mut vars = HashMap::new();

    // Test different value types; a number keeps its literal text
    vars.insert("string".to_string(), BdlValue::String("hello".to_string()));
    vars.insert("number".to_string(), BdlValue::Number("42".to_string()));
    vars.insert("boolean".to_string(), BdlValue::Boolean(true));
    vars.insert("empty".to_string(), BdlValue::Empty);

    assert!(matches!(vars.get("string"), Some(BdlValue::String(_))));
    assert!(matches!(vars.get("number"), Some(BdlValue::Number(_))));
    assert!(matches!(vars.get("boolean"), Some(BdlValue::Boolean(_))));
    assert!(matches!(vars.get("empty"), Some(BdlValue::Empty)));
}

#[test]
fn test_error_messages() {
    let e = BdlError::ParseError("bad line".to_string());
    assert_eq!(e.message(), "bad line");
    let e = BdlError::VariableError("undeclared".to_string());
    assert_eq!(e.message(), "undeclared");
    let e = BdlError::NodeError("duplicate".to_string());
    assert_eq!(e.message(), "duplicate");
    let e = BdlError::DependencyError("missing".to_string());
    assert_eq!(e.message(), "missing");
}
