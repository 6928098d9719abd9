use satteri::{ArenaBuilder, NO_PARENT};

#[test]
fn simple_open_close() {
    let mut builder = ArenaBuilder::new("# Hello".to_string());
    let root = builder.open_node(0);
    let heading = builder.open_node(2);
    let text = builder.add_leaf(10);
    let heading_closed = builder.close_node();
    let root_closed = builder.close_node();
    assert_eq!(heading_closed, heading);
    assert_eq!(root_closed, root);

    let arena = builder.finish();
    assert_eq!(arena.len(), 3);
    assert_eq!(arena.get_children(root), &[heading]);
    assert_eq!(arena.get_children(heading), &[text]);
    assert_eq!(arena.get_node(text).parent, heading);
    assert_eq!(arena.get_node(heading).parent, root);
}

#[test]
fn finish_closes_open_nodes() {
    let mut builder = ArenaBuilder::new(String::new());
    builder.open_node(0);
    builder.open_node(1);
    builder.add_leaf(10);
    // Do NOT close explicitly — finish() should handle it.
    let arena = builder.finish();
    assert_eq!(arena.len(), 3);
}

#[test]
fn leaf_has_no_children() {
    let mut builder = ArenaBuilder::new(String::new());
    builder.open_node(0);
    let leaf = builder.add_leaf(14);
    builder.close_node();
    let arena = builder.finish();
    assert_eq!(arena.get_children(leaf), &[] as &[u32]);
}

#[test]
fn position_and_data_current() {
    let mut builder = ArenaBuilder::new("hello".to_string());
    let id = builder.open_node(10);
    builder.set_position_current(0, 5, 1, 1, 1, 6);
    builder.set_data_current(&[42u8]);
    builder.close_node();
    let arena = builder.finish();
    let node = arena.get_node(id);
    assert_eq!(node.start_offset, 0);
    assert_eq!(node.end_offset, 5);
    assert_eq!(node.data_len, 1);
}

#[test]
fn finish_links_every_child_to_its_parent() {
    let mut builder = ArenaBuilder::new(String::new());
    let root = builder.open_node(0);
    let a = builder.open_node(1);
    let a1 = builder.add_leaf(2);
    let a2 = builder.add_leaf(3);
    builder.close_node();
    let b = builder.add_leaf(4);
    let arena = builder.finish();
    assert_eq!(arena.get_children(root), &[a, b]);
    assert_eq!(arena.get_children(a), &[a1, a2]);
    for n in 0..arena.len() as u32 {
        for &c in arena.get_children(n) {
            assert_eq!(arena.get_node(c).parent, n);
        }
    }
    assert_eq!(arena.get_node(root).parent, NO_PARENT);
}

#[test]
fn stack_queries_follow_open_nodes() {
    let mut builder = ArenaBuilder::new(String::new());
    assert_eq!(builder.stack_depth(), 0);
    assert_eq!(builder.stack_node_id(0), None);
    let root = builder.open_node(0);
    let child = builder.open_node_raw(5);
    assert_eq!(builder.stack_depth(), 2);
    assert_eq!(builder.current_node_id(), child);
    assert_eq!(builder.stack_node_id(0), Some(root));
    assert_eq!(builder.stack_node_id(1), Some(child));
    let leaf = builder.add_leaf_raw(6);
    assert_eq!(builder.current_children_mut().as_slice(), &[leaf]);
    builder.change_node_type(leaf, 9);
    assert_eq!(builder.arena_ref().get_node(leaf).node_type, 9);
    assert_eq!(builder.close_node(), child);
    assert_eq!(builder.current_node_id(), root);
}

#[test]
fn strings_and_type_data_round_trip() {
    let mut builder = ArenaBuilder::new("src".to_string());
    let id = builder.open_node(1);
    let s1 = builder.alloc_string("héllo");
    let s2 = builder.alloc_string("wörld");
    builder.set_data_current(&[1, 2, 3]);
    let arena = builder.finish();
    assert_eq!(arena.get_str(s1), "héllo");
    assert_eq!(arena.get_str(s2), "wörld");
    assert_eq!(s2.offset, s1.len);
    assert_eq!(arena.get_type_data(id), &[1, 2, 3]);
    assert_eq!(arena.source(), "src");
}
