use bytes_trie::builder::graph::NodeGraph;
use bytes_trie::builder::node::{
    BranchHeadNode, DynamicBranchNode, FinalValueNode, IntermediateValueNode, LinearMatchNode,
    ListBranchNode, Node, SplitBranchNode,
};
use bytes_trie::trie::key_buffer::KeyBuffer;
use bytes_trie::BytesTrieBuilderError;

#[test]
fn key_buffer_keeps_the_key() {
    let mut buffer = KeyBuffer::new();
    assert_eq!(buffer.len(), 0);
    buffer.push(b'a');
    buffer.extend_from_slice(b"xbcdy", 1, 4);
    assert_eq!(buffer.as_slice(), b"abcd");
    buffer.truncate(2);
    assert_eq!(buffer.len(), 2);
    assert_eq!(buffer.to_vec(), b"ab".to_vec());
    buffer.push(b'z');
    assert_eq!(buffer.as_slice(), b"abz");
}

#[test]
fn nodes_are_made_as_asked() {
    assert_eq!(FinalValueNode::new(5).value, 5);
    let linear = LinearMatchNode::new(3, 4, 7);
    assert_eq!(
        (linear.value, linear.string_offset, linear.length, linear.next),
        (None, 3, 4, 7)
    );
    let head = BranchHeadNode::new(9, 2);
    assert_eq!((head.value, head.length, head.next), (None, 9, 2));
    let value = IntermediateValueNode::new(-1, 6);
    assert_eq!((value.value, value.next), (-1, 6));
    let split = SplitBranchNode::new(b'm', 1, 2);
    assert_eq!((split.unit, split.less_than, split.greater_or_equal), (b'm', 1, 2));
    let mut list = ListBranchNode::new(2);
    list.add_with_final_value(b'a', 10);
    list.add_with_match_node(b'b', 4);
    assert_eq!(list.units, vec![b'a', b'b']);
    assert_eq!(list.equal, vec![None, Some(4)]);
    assert_eq!(list.values, vec![10, 0]);
    assert!(matches!(Node::new_final_value_node(3), Node::FinalValue(_)));
    assert!(matches!(Node::new_linear_match_node(0, 1, 0), Node::LinearMatch(_)));
    assert!(matches!(Node::new_dynamic_branch_node(), Node::DynamicBranch(_)));
}

#[test]
fn branch_keeps_its_edges_in_order() {
    let mut branch = DynamicBranchNode::new();
    branch.add_char(b'm', 1);
    branch.add_char(b'c', 2);
    branch.add_char(b'x', 3);
    assert_eq!(branch.chars, vec![b'c', b'm', b'x']);
    assert_eq!(branch.equal, vec![2, 1, 3]);
    assert_eq!(branch.find(b'a'), 0);
    assert_eq!(branch.find(b'c'), 0);
    assert_eq!(branch.find(b'd'), 1);
    assert_eq!(branch.find(b'x'), 2);
    assert_eq!(branch.find(b'z'), 3);
}

#[test]
fn graph_adds_keys_below_a_node() {
    let mut graph = NodeGraph::new();
    let first = graph.create_suffix_node(b"__ab", 2, 1);
    assert_eq!(graph.strings, b"ab".to_vec());
    let again = graph.register_final_value(1);
    assert!(matches!(&graph.nodes[again], Node::FinalValue(n) if n.value == 1));
    assert_eq!(graph.nodes.len(), 2);
    let second = graph.add(first, b"ac", 0, 2).unwrap();
    assert!(matches!(&graph.nodes[second], Node::LinearMatch(n) if n.length == 1));
    assert_eq!(
        graph.add(second, b"ab", 0, 3),
        Err(BytesTrieBuilderError::DuplicateKey)
    );
}

#[test]
fn graph_takes_no_keys_below_a_finished_node() {
    let mut graph = NodeGraph::new();
    let value = graph.register_final_value(1);
    let linear = graph.push(Node::new_linear_match_node(0, 0, value));
    let finished = graph.push(Node::IntermediateValue(IntermediateValueNode::new(2, linear)));
    assert_eq!(
        graph.add(finished, b"a", 0, 3),
        Err(BytesTrieBuilderError::AddAfterBuild)
    );
    assert_eq!(graph.nodes.len(), 3);
}

#[test]
fn graph_splits_a_match_without_copying_bytes() {
    let mut graph = NodeGraph::new();
    let first = graph.create_suffix_node(b"abcd", 0, 1);
    assert_eq!(graph.nodes.len(), 2);
    let split = graph.add(first, b"ab", 0, 2).unwrap();
    // No byte is added; the second part is made first, the first part last.
    assert_eq!(graph.strings, b"abcd".to_vec());
    assert_eq!(graph.nodes.len(), 4);
    assert_eq!(split, 3);
    assert!(matches!(
        &graph.nodes[2],
        Node::LinearMatch(n)
            if n.value == Some(2) && n.string_offset == 2 && n.length == 2 && n.next == 0
    ));
    assert!(matches!(
        &graph.nodes[3],
        Node::LinearMatch(n)
            if n.value == None && n.string_offset == 0 && n.length == 2 && n.next == 2
    ));
}

#[test]
fn graph_branches_where_a_key_leaves_a_match() {
    let mut graph = NodeGraph::new();
    let first = graph.create_suffix_node(b"b", 0, 1);
    let branch = graph.add(first, b"ac", 0, 2).unwrap();
    // The match of one byte makes way for a branch whose edge of "b" leads
    // to the final value 1; only "c" is added to the key arena.
    assert_eq!(graph.strings, b"bc".to_vec());
    assert!(matches!(
        &graph.nodes[branch],
        Node::DynamicBranch(n)
            if n.value == None && n.chars == vec![b'a', b'b'] && n.equal[1] == 0
    ));
    let again = graph.register_final_value(1);
    assert_eq!(again, 0);
}
