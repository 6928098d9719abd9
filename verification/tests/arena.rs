use satteri::options::Options;
use satteri::{decode_string_ref_data, encode_string_ref_data, Arena, StringRef, NO_PARENT};

#[test]
fn string_refs_round_trip_through_bytes() {
    let sr = StringRef::new(0x0102_0304, 7);
    let bytes = encode_string_ref_data(sr);
    assert_eq!(bytes, vec![4, 3, 2, 1, 7, 0, 0, 0]);
    assert_eq!(decode_string_ref_data(&bytes), sr);
}

#[test]
fn arena_tables() {
    let mut a = Arena::new("abc".to_string());
    let root = a.alloc_node(0);
    let kid = a.alloc_node(1);
    assert_eq!((root, kid), (0, 1));
    a.set_children(root, &[kid]);
    a.set_parent(kid, root);
    a.set_type_data(kid, &[9, 8]);
    a.set_position(kid, 0, 3, 1, 1, 1, 4);
    assert_eq!(a.get_children(root), &[kid]);
    assert_eq!(a.get_node(kid).parent, root);
    assert_eq!(a.get_node(root).parent, NO_PARENT);
    assert_eq!(a.get_type_data(kid), &[9, 8]);
    assert_eq!(a.get_node(kid).end_offset, 3);
    assert_eq!(a.children_table_len(), 1);
    assert_eq!(a.type_data_table_len(), 2);
    let sr = a.alloc_string("héllo");
    assert_eq!(a.get_str(sr), "héllo");
    assert_eq!(a.string_pool().len(), 6);
    assert_eq!(a.get_node_data(kid), None);
    a.set_node_data(kid, vec![5]);
    assert_eq!(a.get_node_data(kid), Some(&[5u8][..]));
    a.change_node_type(kid, 4);
    assert_eq!(a.get_node(kid).node_type, 4);
    assert_eq!(a.source(), "abc");
}

#[test]
fn option_flags() {
    let mut o = Options::empty();
    assert_eq!(o.bits(), 0);
    o.insert(Options::ENABLE_MATH_SINGLE_DOLLAR);
    assert!(o.has_math());
    assert!(!o.contains(Options::ENABLE_MATH));
    assert!(o.intersects(Options::ENABLE_MATH));
    o.insert(Options::ENABLE_SMART_QUOTES);
    assert!(o.has_smart_quotes());
    assert!(!o.has_smart_dashes());
    assert!(!o.has_smart_ellipses());
    let t = Options::from_bits_truncate(Options::ENABLE_SMART_PUNCTUATION);
    assert!(t.has_smart_dashes() && t.has_smart_ellipses());
}
