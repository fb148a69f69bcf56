use bdl::{
    BdlContentElement, BdlDestination, BdlDocument, BdlError, BdlMetadata, BdlParser, DepSet,
};

#[test]
fn test_end_to_end_document() {
    let content = "\
# Topic: Greeting
# Required: shop.bdl

@start
Hello there.
{continue: @end}

@end
Goodbye.
";
    let parser = BdlParser::new(content.to_string());

    let metadata = parser.parse_metadata().unwrap();
    assert_eq!(metadata.topic, Some("Greeting".to_string()));
    assert_eq!(metadata.required, Some(vec!["shop.bdl".to_string()]));

    let deps = parser.validate_dependencies(metadata.required.as_ref().unwrap()).unwrap();
    let (global, local) = parser.parse_variables().unwrap();
    assert!(global.is_none());
    assert!(local.is_empty());

    let nodes = parser.parse_nodes(&deps).unwrap();
    assert_eq!(nodes.len(), 2);

    let start = nodes.get("start").unwrap();
    assert_eq!(start.content.len(), 1);
    assert!(matches!(&start.content[0], BdlContentElement::Text(t) if t == "Hello there."));
    assert_eq!(start.options.len(), 1);
    assert_eq!(start.options[0].keywords, vec!["continue".to_string()]);
    assert!(matches!(&start.options[0].destination, BdlDestination::Node(n) if n == "end"));
    assert!(start.options[0].condition.is_none());

    let end = nodes.get("end").unwrap();
    assert_eq!(end.content.len(), 1);
    assert!(matches!(&end.content[0], BdlContentElement::Text(t) if t == "Goodbye."));
    assert!(end.options.is_empty());

    // assemble the document
    let mut doc = BdlDocument::new(Some(metadata));
    let start = nodes.get("start").unwrap().clone();
    let end = nodes.get("end").unwrap().clone();
    assert!(doc.add_node(start).is_ok());
    assert!(doc.add_node(end).is_ok());
    assert_eq!(doc.nodes.len(), 2);
}

#[test]
fn test_undeclared_file_transfer() {
    // `shop.bdl` is not among the declared dependencies
    let parser = BdlParser::new(String::new());
    let deps = parser.validate_dependencies(&vec!["other.bdl".to_string()]).unwrap();
    assert!(matches!(
        parser.validate_file_transfer("shop.bdl", &deps),
        Err(BdlError::DependencyError(_))
    ));

    // the same failure through a document body
    let content = "\
@start
{buy: [shop.bdl:buy]}
";
    let parser = BdlParser::new(content.to_string());
    assert!(matches!(parser.parse_nodes(&deps), Err(BdlError::DependencyError(_))));
}

#[test]
fn test_header_round_trip() {
    let metadata = BdlMetadata {
        topic: Some("Greeting".to_string()),
        description: None,
        author: Some("Someone".to_string()),
        version: Some("2.1".to_string()),
        required: Some(vec!["a.bdl".to_string(), "b.bdl".to_string()]),
    };
    let header = metadata.to_header();
    let reparsed = BdlParser::new(header).parse_metadata().unwrap();
    assert_eq!(reparsed, metadata);

    // the empty metadata round-trips too
    let empty = BdlMetadata::default();
    let reparsed = BdlParser::new(empty.to_header()).parse_metadata().unwrap();
    assert_eq!(reparsed, empty);
}

#[test]
fn test_header_output() {
    let metadata = BdlMetadata {
        topic: Some("T".to_string()),
        description: None,
        author: None,
        version: None,
        required: Some(vec!["a.bdl".to_string(), "b.bdl".to_string()]),
    };
    assert_eq!(metadata.to_header(), "# topic: T\n# required: a.bdl,b.bdl");
}

#[test]
fn test_declared_dependencies_become_a_set() {
    // parsing a required list and validating it yields exactly the
    // declared names
    let content = "# Required: a.bdl, b.bdl";
    let parser = BdlParser::new(content.to_string());
    let metadata = parser.parse_metadata().unwrap();
    let declared = metadata.required.unwrap();
    assert_eq!(declared, vec!["a.bdl".to_string(), "b.bdl".to_string()]);
    let deps = parser.validate_dependencies(&declared).unwrap();
    assert_eq!(deps.len(), 2);
    assert!(deps.contains("a.bdl"));
    assert!(deps.contains("b.bdl"));
    assert!(!deps.contains("c.bdl"));

    // a name declared twice is rejected
    let content = "# Required: a.bdl, a.bdl";
    let parser = BdlParser::new(content.to_string());
    let metadata = parser.parse_metadata().unwrap();
    assert!(matches!(
        parser.validate_dependencies(&metadata.required.unwrap()),
        Err(BdlError::DependencyError(_))
    ));
}

#[test]
fn test_required_keeps_empty_segments() {
    let content = "# Required: a.bdl,, b.bdl";
    let metadata = BdlParser::new(content.to_string()).parse_metadata().unwrap();
    assert_eq!(
        metadata.required,
        Some(vec!["a.bdl".to_string(), "".to_string(), "b.bdl".to_string()])
    );
}

#[test]
fn test_metadata_stops_at_body() {
    // a later comment that looks like metadata is body, not header
    let content = "\
# Topic: Real
@start
# Author: Not metadata
";
    let metadata = BdlParser::new(content.to_string()).parse_metadata().unwrap();
    assert_eq!(metadata.topic, Some("Real".to_string()));
    assert!(metadata.author.is_none());
}

#[test]
fn test_content_markers() {
    let content = "\
@start
Hello ${name}!
!{getTime -> time, zone}
";
    let parser = BdlParser::new(content.to_string());
    let deps = DepSet::new();
    let nodes = parser.parse_nodes(&deps).unwrap();
    let node = nodes.get("start").unwrap();
    assert_eq!(node.content.len(), 4);
    assert!(matches!(&node.content[0], BdlContentElement::Text(t) if t == "Hello "));
    assert!(matches!(&node.content[1], BdlContentElement::Variable(v) if v == "name"));
    assert!(matches!(&node.content[2], BdlContentElement::Text(t) if t == "!\n"));
    match &node.content[3] {
        BdlContentElement::FunctionCall { name, result_vars } => {
            assert_eq!(name, "getTime");
            assert_eq!(result_vars, &vec!["time".to_string(), "zone".to_string()]);
        },
        _ => panic!("Expected FunctionCall content"),
    }
}

#[test]
fn test_content_runs_coalesce() {
    let content = "\
@start
first line
second line

third line
";
    let parser = BdlParser::new(content.to_string());
    let nodes = parser.parse_nodes(&DepSet::new()).unwrap();
    let node = nodes.get("start").unwrap();
    assert_eq!(node.content.len(), 2);
    assert!(matches!(&node.content[0], BdlContentElement::Text(t) if t == "first line\nsecond line"));
    assert!(matches!(&node.content[1], BdlContentElement::Text(t) if t == "third line"));
}

#[test]
fn test_parse_option_lines() {
    let parser = BdlParser::new(String::new());
    let mut deps = DepSet::new();
    deps.insert("other.bdl".to_string());

    // several keywords, same-file destination
    let o = parser.parse_option("{a|b: @next}", &deps).unwrap();
    assert_eq!(o.keywords, vec!["a".to_string(), "b".to_string()]);
    assert!(matches!(&o.destination, BdlDestination::Node(n) if n == "next"));
    assert!(o.condition.is_none());

    // exit destination
    let o = parser.parse_option("{quit: exit}", &deps).unwrap();
    assert!(matches!(o.destination, BdlDestination::Exit));

    // file transfer into a declared dependency
    let o = parser.parse_option("{go: [other.bdl:start]}", &deps).unwrap();
    match &o.destination {
        BdlDestination::FileTransfer { file, node } => {
            assert_eq!(file, "other.bdl");
            assert_eq!(node, "start");
        },
        _ => panic!("Expected FileTransfer destination"),
    }

    // conditional option
    let o = parser.parse_option("?{can_exit}{quit: exit}", &deps).unwrap();
    assert_eq!(o.condition.as_ref().unwrap().variable, "can_exit");
    assert!(matches!(o.destination, BdlDestination::Exit));

    // malformed lines; an empty destination name can never match a node
    assert!(matches!(parser.parse_option("{quit exit}", &deps), Err(BdlError::ParseError(_))));
    assert!(matches!(parser.parse_option("{quit: @}", &deps), Err(BdlError::ParseError(_))));
    assert!(matches!(parser.parse_option("quit", &deps), Err(BdlError::ParseError(_))));
    assert!(matches!(
        parser.parse_option("{go: [other.txt:start]}", &deps),
        Err(BdlError::DependencyError(_))
    ));
}

#[test]
fn test_global_then_local_blocks() {
    let content = "\
$global_vars: {
    score: 1
}
$local_vars: {
    score: 2
}
";
    let parser = BdlParser::new(content.to_string());
    let (global, local) = parser.parse_variables().unwrap();
    let globals = global.unwrap();
    assert!(matches!(globals.get("score"), Some(bdl::BdlValue::Number(n)) if n == "1"));
    assert!(matches!(local.get("score"), Some(bdl::BdlValue::Number(n)) if n == "2"));
}

#[test]
fn test_local_blocks_accumulate() {
    let content = "\
$local_vars: {
    a: 1,
    b: 2
}
$local_vars: {
    b: 3,
    c: 4
}
";
    let parser = BdlParser::new(content.to_string());
    let (global, local) = parser.parse_variables().unwrap();
    assert!(global.is_none());
    assert_eq!(local.len(), 3);
    assert!(matches!(local.get("a"), Some(bdl::BdlValue::Number(n)) if n == "1"));
    assert!(matches!(local.get("b"), Some(bdl::BdlValue::Number(n)) if n == "3"));
    assert!(matches!(local.get("c"), Some(bdl::BdlValue::Number(n)) if n == "4"));
}

#[test]
fn test_empty_node_name_rejected() {
    // a node header must carry a non-empty name
    let parser = BdlParser::new("@".to_string());
    match parser.parse_nodes(&DepSet::new()) {
        Err(BdlError::ParseError(msg)) => assert_eq!(msg, "@"),
        _ => panic!("Expected ParseError"),
    }
    let parser = BdlParser::new("@   \n".to_string());
    assert!(matches!(parser.parse_nodes(&DepSet::new()), Err(BdlError::ParseError(_))));
}

#[test]
fn test_error_messages_name_their_cause() {
    let parser = BdlParser::new(String::new());

    // extension failures name the extension cause and the file
    match parser.validate_dependency_file("module.txt") {
        Err(e) => assert_eq!(e.message(), "Invalid dependency file extension: module.txt"),
        _ => panic!("Expected DependencyError"),
    }

    // a transfer outside the set names the undeclared dependency
    let mut deps = DepSet::new();
    deps.insert("module1.bdl".to_string());
    match parser.validate_file_transfer("shop.bdl", &deps) {
        Err(e) => assert_eq!(e.message(), "Undeclared dependency: shop.bdl"),
        _ => panic!("Expected DependencyError"),
    }
    match parser.validate_file_transfer("module1.txt", &deps) {
        Err(e) => assert_eq!(e.message(), "Invalid dependency file extension: module1.txt"),
        _ => panic!("Expected DependencyError"),
    }

    // a repeated declaration names the duplicate
    let declared = vec!["module1.bdl".to_string(), "module1.bdl".to_string()];
    match parser.validate_dependencies(&declared) {
        Err(e) => assert_eq!(e.message(), "Duplicate dependency: module1.bdl"),
        _ => panic!("Expected DependencyError"),
    }

    // a malformed variable line carries the offending raw line
    match bdl::parse_variable_line("x: not_valid") {
        Err(e) => assert_eq!(e.message(), "x: not_valid"),
        _ => panic!("Expected ParseError"),
    }
    let content = "$local_vars: {\n    invalid_value: not_valid\n}\n";
    match BdlParser::new(content.to_string()).parse_variables() {
        Err(e) => assert_eq!(e.message(), "invalid_value: not_valid"),
        _ => panic!("Expected ParseError"),
    }

    // a second global block carries the duplicate-declaration message
    let content = "$global_vars: {\n}\n$global_vars: {\n}\n";
    match BdlParser::new(content.to_string()).parse_variables() {
        Err(e) => assert_eq!(e.message(), "Duplicate global variables declaration"),
        _ => panic!("Expected ParseError"),
    }

    // a duplicate node carries its name, on both paths
    let parser = BdlParser::new("@node1\n@node1\n".to_string());
    match parser.parse_nodes(&DepSet::new()) {
        Err(e) => assert_eq!(e.message(), "node1"),
        _ => panic!("Expected NodeError"),
    }
    let mut doc = BdlDocument::new(None);
    doc.add_node(bdl::BdlNode::new("n".to_string())).unwrap();
    match doc.add_node(bdl::BdlNode::new("n".to_string())) {
        Err(e) => assert_eq!(e.message(), "n"),
        _ => panic!("Expected NodeError"),
    }
}
