use bdl::{BdlError, BdlParser, BdlValue, DepSet, parse_variable_line};

#[test]
fn test_parse_empty_metadata() {
    let parser = BdlParser::new("".to_string());
    let metadata = parser.parse_metadata().unwrap();
    assert!(metadata.topic.is_none());
    assert!(metadata.description.is_none());
    assert!(metadata.author.is_none());
    assert!(metadata.version.is_none());
    assert!(metadata.required.is_none());
}

#[test]
fn test_parse_complete_metadata() {
    let content = "\
# Topic: Test Dialog
# Description: A test dialog file
# Author: Test Author
# Version: 1.0
# Required: mod1.bdl, mod2.bdl

@start
Some content...";

    let parser = BdlParser::new(content.to_string());
    let metadata = parser.parse_metadata().unwrap();

    assert_eq!(metadata.topic, Some("Test Dialog".to_string()));
    assert_eq!(metadata.description, Some("A test dialog file".to_string()));
    assert_eq!(metadata.author, Some("Test Author".to_string()));
    assert_eq!(metadata.version, Some("1.0".to_string()));
    assert_eq!(metadata.required, Some(vec!["mod1.bdl".to_string(), "mod2.bdl".to_string()]));
}

#[test]
fn test_parse_partial_metadata() {
    let content = "\
# Topic: Partial Test
# Author: Test Author

@start";

    let parser = BdlParser::new(content.to_string());
    let metadata = parser.parse_metadata().unwrap();

    assert_eq!(metadata.topic, Some("Partial Test".to_string()));
    assert!(metadata.description.is_none());
    assert_eq!(metadata.author, Some("Test Author".to_string()));
    assert!(metadata.version.is_none());
    assert!(metadata.required.is_none());
}

#[test]
fn test_parse_metadata_with_comments() {
    let content = "\
# This is a comment
# Topic: With Comments
# Another comment
# Author: Test Author
# Description: Test Description
# Yet another comment

Content starts here...";

    let parser = BdlParser::new(content.to_string());
    let metadata = parser.parse_metadata().unwrap();

    assert_eq!(metadata.topic, Some("With Comments".to_string()));
    assert_eq!(metadata.description, Some("Test Description".to_string()));
    assert_eq!(metadata.author, Some("Test Author".to_string()));
    assert!(metadata.version.is_none());
    assert!(metadata.required.is_none());
}

#[test]
fn test_parse_empty_variables() {
    let content = "# Empty file";
    let parser = BdlParser::new(content.to_string());
    let (global, local) = parser.parse_variables().unwrap();
    assert!(global.is_none());
    assert!(local.is_empty());
}

#[test]
fn test_parse_global_variables() {
    let content = r#"
$global_vars: {
    user_name: "",
    score: 0,
    is_complete: false,
    high_score: 100.5,
    inventory: {}
}
"#;
    let parser = BdlParser::new(content.to_string());
    let (global, local) = parser.parse_variables().unwrap();

    let globals = global.unwrap();
    assert_eq!(globals.len(), 5);
    assert!(matches!(globals.get("user_name"), Some(BdlValue::String(s)) if s.is_empty()));
    assert!(matches!(globals.get("score"), Some(BdlValue::Number(n)) if n == "0"));
    assert!(matches!(globals.get("is_complete"), Some(BdlValue::Boolean(b)) if !b));
    assert!(matches!(globals.get("high_score"), Some(BdlValue::Number(n)) if n == "100.5"));
    assert!(matches!(globals.get("inventory"), Some(BdlValue::Empty)));
    assert!(local.is_empty());
}

#[test]
fn test_parse_local_variables() {
    let content = r#"
$local_vars: {
    attempts: 0,
    current_progress: 50,
    has_key: true,
    player_name: "John"
}
"#;
    let parser = BdlParser::new(content.to_string());
    let (global, local) = parser.parse_variables().unwrap();

    assert!(global.is_none());
    assert_eq!(local.len(), 4);
    assert!(matches!(local.get("attempts"), Some(BdlValue::Number(n)) if n == "0"));
    assert!(matches!(local.get("current_progress"), Some(BdlValue::Number(n)) if n == "50"));
    assert!(matches!(local.get("has_key"), Some(BdlValue::Boolean(b)) if *b));
    assert!(matches!(local.get("player_name"), Some(BdlValue::String(s)) if s == "John"));
}

#[test]
fn test_parse_both_variable_types() {
    let content = r#"
$global_vars: {
    score: 0
}

$local_vars: {
    attempts: 3
}
"#;
    let parser = BdlParser::new(content.to_string());
    let (global, local) = parser.parse_variables().unwrap();

    let globals = global.unwrap();
    assert_eq!(globals.len(), 1);
    assert!(matches!(globals.get("score"), Some(BdlValue::Number(n)) if n == "0"));

    assert_eq!(local.len(), 1);
    assert!(matches!(local.get("attempts"), Some(BdlValue::Number(n)) if n == "3"));
}

#[test]
fn test_duplicate_global_vars() {
    let content = r#"
$global_vars: {
    score: 0
}

$global_vars: {
    lives: 3
}
"#;
    let parser = BdlParser::new(content.to_string());
    assert!(matches!(parser.parse_variables(), Err(BdlError::ParseError(_))));
}

#[test]
fn test_invalid_variable_format() {
    let content = r#"
$local_vars: {
    invalid_value: not_valid
}
"#;
    let parser = BdlParser::new(content.to_string());
    assert!(matches!(parser.parse_variables(), Err(BdlError::ParseError(_))));
}

#[test]
fn test_validate_dependency_file() {
    let parser = BdlParser::new(String::new());

    // Valid dependency
    assert!(parser.validate_dependency_file("module.bdl").is_ok());

    // Invalid extension
    assert!(matches!(
        parser.validate_dependency_file("module.txt"),
        Err(BdlError::DependencyError(_))
    ));

    // No extension
    assert!(matches!(
        parser.validate_dependency_file("module"),
        Err(BdlError::DependencyError(_))
    ));
}

#[test]
fn test_validate_dependencies() {
    let parser = BdlParser::new(String::new());

    // Valid dependencies
    let deps = vec!["module1.bdl".to_string(), "module2.bdl".to_string()];
    let result = parser.validate_dependencies(&deps);
    assert!(result.is_ok());
    assert_eq!(result.unwrap().len(), 2);

    // Duplicate dependencies
    let deps = vec!["module1.bdl".to_string(), "module1.bdl".to_string()];
    assert!(matches!(parser.validate_dependencies(&deps), Err(BdlError::DependencyError(_))));

    // Invalid extension
    let deps = vec!["module1.bdl".to_string(), "module2.txt".to_string()];
    assert!(matches!(parser.validate_dependencies(&deps), Err(BdlError::DependencyError(_))));
}

#[test]
fn test_validate_file_transfer() {
    let parser = BdlParser::new(String::new());

    let mut deps = DepSet::new();
    deps.insert("module1.bdl".to_string());
    deps.insert("module2.bdl".to_string());

    // Valid transfer
    assert!(parser.validate_file_transfer("module1.bdl", &deps).is_ok());

    // Undeclared dependency
    assert!(matches!(
        parser.validate_file_transfer("module3.bdl", &deps),
        Err(BdlError::DependencyError(_))
    ));

    // Invalid extension
    assert!(matches!(
        parser.validate_file_transfer("module1.txt", &deps),
        Err(BdlError::DependencyError(_))
    ));
}

fn create_test_dependencies() -> DepSet {
    let mut deps = DepSet::new();
    deps.insert("module1.bdl".to_string());
    deps.insert("module2.bdl".to_string());
    deps
}

#[test]
fn test_parse_empty_node() {
    let content = "@empty_node";
    let parser = BdlParser::new(content.to_string());
    let deps = create_test_dependencies();

    let nodes = parser.parse_nodes(&deps).unwrap();
    assert_eq!(nodes.len(), 1);

    let node = nodes.get("empty_node").unwrap();
    assert_eq!(node.name, "empty_node");
    assert!(node.content.is_empty());
    assert!(node.options.is_empty());
}

#[test]
fn test_parse_text_only_node() {
    let content = r#"
@greeting
Hello, this is some text content.
It can span multiple lines.
"#;
    let parser = BdlParser::new(content.to_string());
    let deps = create_test_dependencies();

    let nodes = parser.parse_nodes(&deps).unwrap();
    assert_eq!(nodes.len(), 1);

    let node = nodes.get("greeting").unwrap();
    assert_eq!(node.name, "greeting");
    assert_eq!(node.content.len(), 1);

    match &node.content[0] {
        bdl::BdlContentElement::Text(text) => {
            assert!(text.contains("Hello, this is some text content"));
            assert!(text.contains("It can span multiple lines"));
        },
        _ => panic!("Expected Text content"),
    }
}

#[test]
fn test_duplicate_node_names() {
    let content = r#"
@node1
Some content

@node1
Other content
"#;
    let parser = BdlParser::new(content.to_string());
    let deps = create_test_dependencies();

    assert!(matches!(parser.parse_nodes(&deps), Err(BdlError::NodeError(_))));
}

#[test]
fn test_multiple_nodes() {
    let content = r#"
@node1
First node content

@node2
Second node content
"#;
    let parser = BdlParser::new(content.to_string());
    let deps = create_test_dependencies();

    let nodes = parser.parse_nodes(&deps).unwrap();
    assert_eq!(nodes.len(), 2);
    assert!(nodes.contains_key("node1"));
    assert!(nodes.contains_key("node2"));
}

#[test]
fn test_value_coercion_cases() {
    // quoted empty text is a present-but-empty string
    let r = parse_variable_line("x: \"\"").unwrap().unwrap();
    assert!(matches!(r.1, BdlValue::String(ref s) if s.is_empty()));

    // a bare zero is a number, kept as its literal
    let r = parse_variable_line("x: 0").unwrap().unwrap();
    assert!(matches!(r.1, BdlValue::Number(ref n) if n == "0"));

    // booleans
    let r = parse_variable_line("x: true").unwrap().unwrap();
    assert!(matches!(r.1, BdlValue::Boolean(true)));
    let r = parse_variable_line("x: false").unwrap().unwrap();
    assert!(matches!(r.1, BdlValue::Boolean(false)));

    // the empty forms
    let r = parse_variable_line("x: {}").unwrap().unwrap();
    assert!(matches!(r.1, BdlValue::Empty));
    let r = parse_variable_line("x:").unwrap().unwrap();
    assert!(matches!(r.1, BdlValue::Empty));

    // anything else is malformed
    assert!(matches!(parse_variable_line("x: not_valid"), Err(BdlError::ParseError(_))));

    // a single trailing comma is insignificant
    let r = parse_variable_line("x: 7,").unwrap().unwrap();
    assert!(matches!(r.1, BdlValue::Number(ref n) if n == "7"));

    // number lexing accepts signs, fractions and exponents
    assert!(matches!(
        parse_variable_line("x: -3.5e2").unwrap().unwrap().1,
        BdlValue::Number(ref n) if n == "-3.5e2"
    ));
    assert!(matches!(parse_variable_line("x: 1.2.3"), Err(BdlError::ParseError(_))));
    assert!(matches!(parse_variable_line("x: inf"), Err(BdlError::ParseError(_))));
}
