use tinyc::ast::{Node, NodeType, Program};

#[test]
fn test_downcast() {
    let program = Program::new();
    let node = Node::Program(program);
    assert_eq!(node.node_type(), NodeType::Program);
    match node {
        Node::Program(down) => assert!(down.statements.is_empty()),
        _ => panic!("expected a program"),
    }
}
