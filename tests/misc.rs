use rstz::tree::{Node, NodeType, TSNode, MAX_CHILDREN_PER_NODE};
use rstz::RstzError;

#[test]
fn error_constructors() {
    assert_eq!(RstzError::new("boom"), RstzError::Message("boom".to_string()));
    assert_eq!(RstzError::from_none(), RstzError::NoneError);
    assert_eq!(RstzError::new("boom").message(), "boom");
    assert_eq!(RstzError::Eof.message(), "unexpected end of input");
}

#[test]
fn node_starts_empty() {
    let n = Node::new(Some(3), [7; 16]);
    assert_eq!(n.pidx, Some(3));
    for i in 0..MAX_CHILDREN_PER_NODE {
        assert!(n.child_as_ref(i).is_none());
    }
}

#[test]
fn node_add_child() {
    let mut n = Node::new(None, [0; 16]);
    assert!(n.add_child(NodeType::LeafNode(TSNode::new(vec![1, 2])), 5).is_ok());
    assert!(n.child_as_ref(5).is_some());
    assert!(n.child_as_ref(4).is_none());
    let err = n.add_child(NodeType::TreeNode(Node::new(Some(5), [1; 16])), MAX_CHILDREN_PER_NODE);
    assert_eq!(err, Err(RstzError::new("Child index out of bounds")));
}

#[test]
fn node_child_as_mut() {
    let mut n = Node::new(None, [0; 16]);
    *n.child_as_mut(2) = Some(Box::new(NodeType::LeafNode(TSNode::new(vec![]))));
    assert!(n.child_as_ref(2).is_some());
    *n.child_as_mut(2) = None;
    assert!(n.child_as_ref(2).is_none());
}
