use haml::ast::Arena;
use haml::parser::Parser;
use haml::scanner::tokenize;

fn parse(haml: &str) -> Arena {
    let tokens = tokenize(haml);
    let mut parser = Parser::new(tokens);
    parser.parse().unwrap()
}

/// Index of the node of the template's first line (node 0 is the root).
fn first(arena: &Arena) -> usize {
    arena.node_at(0).children()[0]
}

#[test]
fn test_basic_element() {
    let arena = parse("%span");
    let node = arena.node_at(first(&arena));
    assert_eq!(None, node.next_sibling());
    assert_eq!(0, node.children().len());
}

#[test]
fn test_basic_children() {
    let arena = parse("%span\n  %a");
    let node = arena.node_at(first(&arena));
    assert_eq!(None, node.next_sibling());
    assert_eq!(1, node.children().len());

    let child_id = node.children().iter().nth(0).unwrap();
    let child_node = arena.node_at(*child_id);
    assert_eq!(None, child_node.next_sibling());
    assert_eq!(0, child_node.children().len());
}

#[test]
fn test_nested_children() {
    let arena = parse("%div\n  %span\n    %a");
    let node = arena.node_at(first(&arena));
    assert_eq!(None, node.next_sibling());
    assert_eq!(1, node.children().len());

    let child_id = *node.children().iter().nth(0).unwrap();
    let child_node = arena.node_at(child_id);
    assert_eq!(None, child_node.next_sibling());
    assert_eq!(1, child_node.children().len());

    let grandchild_id = *child_node.children().iter().nth(0).unwrap();
    let grandchild_node = arena.node_at(grandchild_id);
    assert_eq!(None, grandchild_node.next_sibling());
    assert_eq!(0, grandchild_node.children().len());
}

#[test]
fn test_siblings() {
    let arena = parse("%div\n  %span\n  %a");
    let node = arena.node_at(first(&arena));
    assert_eq!(None, node.next_sibling());
    assert_eq!(2, node.children().len());

    let child_id1 = *node.children().iter().nth(0).unwrap();
    let child_node1 = arena.node_at(child_id1);
    // node 0 is the root, so the third line's node is node 3
    assert_eq!(Some(3), child_node1.next_sibling());
    assert_eq!(0, child_node1.children().len());

    let child_id2 = child_node1.next_sibling().unwrap();
    let child_node2 = arena.node_at(child_id2);
    assert_eq!(None, child_node2.next_sibling());
    assert_eq!(0, child_node2.children().len());
}

#[test]
fn test_comment() {
    let arena = parse("/ comment");
    let node = arena.node_at(first(&arena));
    assert_eq!(None, node.next_sibling());
    assert_eq!(0, node.children().len());
}

#[test]
fn test_nested_text() {
    let arena = parse("%span\n  text");
    let node = arena.node_at(first(&arena));
    assert_eq!(None, node.next_sibling());
    assert_eq!(1, node.children().len());
}

#[test]
fn test_doctype() {
    let arena = parse("!!! 5");
    let node = arena.node_at(first(&arena));
    assert_eq!(None, node.next_sibling());
    assert_eq!(0, node.children().len());
}

#[test]
fn test_ruby_attribute() {
    let arena = parse("%span{:id => \"test\"}");
    let node = arena.node_at(first(&arena));
    assert_eq!(None, node.next_sibling());
    assert_eq!(0, node.children().len());
}

#[test]
fn test_ruby_attributes() {
    let arena = parse("%span{:id => \"test\", :class => \"container\"}");
    let node = arena.node_at(first(&arena));
    assert_eq!(None, node.next_sibling());
    assert_eq!(0, node.children().len());
}

#[test]
fn test_ruby_attributes_with_array() {
    let arena = parse("%span{:id => \"test\", :class => [\"container\", \"box\"]}");
    let node = arena.node_at(first(&arena));
    assert_eq!(None, node.next_sibling());
    assert_eq!(0, node.children().len());
}

#[test]
fn root_holds_every_top_level_line() {
    let arena = parse("%a\n%b\n%c");
    assert_eq!(vec![1, 2, 3], *arena.node_at(0).children());
    assert_eq!(Some(2), arena.node_at(1).next_sibling());
    assert_eq!(Some(3), arena.node_at(2).next_sibling());
    assert_eq!(None, arena.node_at(3).next_sibling());
}

#[test]
fn dedent_goes_back_to_the_matching_ancestor() {
    let arena = parse("%a\n  %b\n    %c\n  %d\n%e");
    assert_eq!(0, arena.parent(1));
    assert_eq!(1, arena.parent(2));
    assert_eq!(2, arena.parent(3));
    assert_eq!(1, arena.parent(4));
    assert_eq!(0, arena.parent(5));
}

#[test]
fn child_indent_exceeds_parent_indent() {
    let arena = parse("%a\n    %b\n  %c\n      %d\n\n%e\n  %f");
    for i in 1..arena.len() {
        let p = arena.parent(i);
        if p != 0 {
            assert!(arena.node_at(i).indentation > arena.node_at(p).indentation);
        }
    }
}

#[test]
fn blank_lines_make_no_nodes() {
    let arena = parse("%a\n\n   \n  %b");
    assert_eq!(3, arena.len());
    assert_eq!(1, arena.parent(2));
}
