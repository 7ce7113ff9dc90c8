use sdtrie::dtrie::{CharList, Identifier, InternalData, LeafData, Matchable, RadixNode};

fn list(text: &str) -> CharList {
    CharList::new(text.as_bytes().to_vec())
}

fn leaf(text: &str, id: u64) -> RadixNode {
    RadixNode::Leaf(LeafData::new(Identifier::from(id), list(text)))
}

fn id(number: u64) -> Identifier {
    Identifier::from(number)
}

fn label(node: &RadixNode) -> Vec<u8> {
    node.bytes().as_vec()
}

fn inner(node: &RadixNode) -> &InternalData {
    match node {
        RadixNode::Internal(data) => data,
        RadixNode::Leaf(_) => panic!("an internal node was expected"),
    }
}

/// The node "f" with the leaves "izz" (1) and "ang" (2) below it.
fn fizz_fang() -> (RadixNode, u64) {
    let mut node = leaf("fizz", 1);
    let mut next: u64 = 2;
    let given = node.insert(list("fang"), &mut next);
    assert_eq!(given, id(2));
    (node, next)
}

#[test]
fn leaf_data_keeps_what_it_was_given() {
    let data = LeafData::new(id(9), list("lizz"));
    assert_eq!(data.id(), id(9));
    assert_eq!(data.bytes().as_vec(), b"lizz".to_vec());
    assert_eq!(data.similar_bytes(list("lizard")), 3);
    let copy = data.clone();
    assert_eq!(copy.id(), id(9));
    assert_eq!(copy.bytes().as_vec(), b"lizz".to_vec());
}

#[test]
fn leaf_from_generator_takes_the_next_number() {
    let mut next: u64 = 41;
    let data = LeafData::new_from_generator(list("pop"), &mut next);
    assert_eq!(data.id(), id(41));
    assert_eq!(data.bytes().as_vec(), b"pop".to_vec());
    assert_eq!(next, 42);
}

#[test]
fn insert_same_string_into_leaf_gives_its_identifier() {
    let mut node = leaf("foo", 1);
    let mut next: u64 = 2;
    assert_eq!(node.insert(list("foo"), &mut next), id(1));
    assert_eq!(next, 2);
    assert_eq!(node.count_nodes(), 1);
    assert!(matches!(node, RadixNode::Leaf(_)));
}

#[test]
fn insert_longer_string_puts_a_leaf_below_the_old_one() {
    let mut node = leaf("foo", 1);
    let mut next: u64 = 2;
    assert_eq!(node.insert(list("food"), &mut next), id(2));
    assert_eq!(next, 3);
    assert_eq!(label(&node), b"foo".to_vec());
    assert_eq!(inner(&node).maybe_id(), Some(id(1)));
    assert_eq!(node.count_nodes(), 2);
    assert_eq!(inner(&node).find_best_child(list("d")), (Some(0), 1));
    assert_eq!(node.get(b"foo"), Some(id(1)));
    assert_eq!(node.get(b"food"), Some(id(2)));
    assert_eq!(node.get(b"fo"), None);
}

#[test]
fn insert_shorter_string_puts_the_old_leaf_below_it() {
    let mut node = leaf("food", 1);
    let mut next: u64 = 2;
    assert_eq!(node.insert(list("foo"), &mut next), id(2));
    assert_eq!(label(&node), b"foo".to_vec());
    assert_eq!(inner(&node).maybe_id(), Some(id(2)));
    assert_eq!(node.count_nodes(), 2);
    assert_eq!(node.get(b"foo"), Some(id(2)));
    assert_eq!(node.get(b"food"), Some(id(1)));
}

#[test]
fn insert_diverging_string_splits_the_leaf_in_two() {
    let (node, next) = fizz_fang();
    assert_eq!(next, 3);
    assert_eq!(label(&node), b"f".to_vec());
    assert_eq!(inner(&node).maybe_id(), None);
    assert_eq!(node.count_nodes(), 3);
    assert_eq!(inner(&node).find_best_child(list("izz")), (Some(0), 3));
    assert_eq!(inner(&node).find_best_child(list("ang")), (Some(1), 3));
    assert_eq!(node.get(b"fizz"), Some(id(1)));
    assert_eq!(node.get(b"fang"), Some(id(2)));
    assert_eq!(node.get(b"f"), None);
}

#[test]
fn insert_label_of_internal_node_gives_it_an_identifier_once() {
    let (mut node, mut next) = fizz_fang();
    assert_eq!(node.insert(list("f"), &mut next), id(3));
    assert_eq!(next, 4);
    assert_eq!(node.count_nodes(), 3);
    assert_eq!(inner(&node).maybe_id(), Some(id(3)));
    assert_eq!(node.insert(list("f"), &mut next), id(3));
    assert_eq!(next, 4);
    assert_eq!(node.count_nodes(), 3);
    assert_eq!(node.get(b"f"), Some(id(3)));
}

#[test]
fn insert_below_internal_node_goes_into_the_matching_child() {
    let (mut node, mut next) = fizz_fang();
    assert_eq!(node.insert(list("fizzy"), &mut next), id(3));
    assert_eq!(node.count_nodes(), 4);
    assert_eq!(label(&node), b"f".to_vec());
    assert_eq!(inner(&node).find_best_child(list("izzy")), (Some(0), 4));
    assert_eq!(node.get(b"fizzy"), Some(id(3)));
    assert_eq!(node.get(b"fizz"), Some(id(1)));
    assert_eq!(node.insert(list("fang"), &mut next), id(2));
    assert_eq!(next, 4);
}

#[test]
fn insert_below_internal_node_adds_a_leaf_where_no_child_matches() {
    let (mut node, mut next) = fizz_fang();
    assert_eq!(node.insert(list("foo"), &mut next), id(3));
    assert_eq!(node.count_nodes(), 4);
    assert_eq!(inner(&node).find_best_child(list("oo")), (Some(2), 2));
    assert_eq!(inner(&node).find_best_child(list("x")), (None, 0));
    assert_eq!(node.get(b"foo"), Some(id(3)));
}

#[test]
fn insert_prefix_of_internal_label_puts_the_old_node_below() {
    let mut node = leaf("abcx", 1);
    let mut next: u64 = 2;
    node.insert(list("abcy"), &mut next);
    assert_eq!(label(&node), b"abc".to_vec());
    assert_eq!(node.insert(list("ab"), &mut next), id(3));
    assert_eq!(label(&node), b"ab".to_vec());
    assert_eq!(inner(&node).maybe_id(), Some(id(3)));
    assert_eq!(node.count_nodes(), 4);
    assert_eq!(inner(&node).find_best_child(list("c")), (Some(0), 1));
    assert_eq!(inner(&node).find_best_child(list("cx")), (Some(0), 2));
    assert_eq!(node.get(b"ab"), Some(id(3)));
    assert_eq!(node.get(b"abc"), None);
    assert_eq!(node.get(b"abcx"), Some(id(1)));
    assert_eq!(node.get(b"abcy"), Some(id(2)));
}

#[test]
fn insert_diverging_from_internal_label_splits_it() {
    let mut node = leaf("abcx", 1);
    let mut next: u64 = 2;
    node.insert(list("abcy"), &mut next);
    node.insert(list("abc"), &mut next);
    assert_eq!(node.insert(list("abd"), &mut next), id(4));
    assert_eq!(next, 5);
    assert_eq!(label(&node), b"ab".to_vec());
    assert_eq!(inner(&node).maybe_id(), None);
    assert_eq!(node.count_nodes(), 5);
    assert_eq!(inner(&node).find_best_child(list("c")), (Some(0), 1));
    assert_eq!(inner(&node).find_best_child(list("d")), (Some(1), 1));
    assert_eq!(node.get(b"abc"), Some(id(3)));
    assert_eq!(node.get(b"abcx"), Some(id(1)));
    assert_eq!(node.get(b"abcy"), Some(id(2)));
    assert_eq!(node.get(b"abd"), Some(id(4)));
    assert_eq!(node.get(b"ab"), None);
}

#[test]
fn similar_bytes_of_leaf_is_what_its_label_shares() {
    let node = leaf("fizz", 1);
    assert_eq!(node.similar_bytes(list("fizzy")), 4);
    assert_eq!(node.similar_bytes(list("fang")), 1);
    assert_eq!(node.similar_bytes(list("bar")), 0);
}

#[test]
fn similar_bytes_of_internal_node_follows_the_tree_down() {
    let (mut node, mut next) = fizz_fang();
    assert_eq!(node.similar_bytes(list("fizzy")), 4);
    assert_eq!(node.similar_bytes(list("fa")), 2);
    assert_eq!(node.similar_bytes(list("f")), 1);
    assert_eq!(node.similar_bytes(list("fx")), 1);
    assert_eq!(node.similar_bytes(list("g")), 0);
    assert_eq!(inner(&node).total_matching_bytes(list("fangs")), 4);
    assert_eq!(inner(&node).similar_bytes(list("fangs")), 4);
    node.insert(list("fizzle"), &mut next);
    assert_eq!(node.similar_bytes(list("fizzled")), 6);
    assert_eq!(node.similar_bytes(list("fizzy")), 4);
}

#[test]
fn find_best_child_takes_the_first_child_that_matches() {
    let (node, _) = fizz_fang();
    assert_eq!(inner(&node).find_best_child(list("a")), (Some(1), 1));
    assert_eq!(inner(&node).find_best_child(list("i")), (Some(0), 1));
    assert_eq!(inner(&node).find_best_child(list("")), (None, 0));
    assert_eq!(inner(&node).find_best_child(list("zz")), (None, 0));
}

#[test]
fn insert_at_index_inserts_into_that_child() {
    let (node, mut next) = fizz_fang();
    let mut data = inner(&node).clone();
    assert_eq!(data.insert_at_index(1, list("ant"), &mut next), id(3));
    assert_eq!(next, 4);
    assert_eq!(data.find_best_child(list("ant")), (Some(1), 3));
    assert_eq!(data.find_best_child(list("ang")), (Some(1), 3));
    let changed = RadixNode::Internal(data);
    assert_eq!(changed.count_nodes(), 5);
    assert_eq!(changed.get(b"fant"), Some(id(3)));
    assert_eq!(node.count_nodes(), 3);
    assert_eq!(node.get(b"fant"), None);
}

#[test]
fn internal_data_setters_and_getters() {
    let (node, _) = fizz_fang();
    let mut data = InternalData::new(list("g"), None, inner(&node).clone_children());
    assert_eq!(data.bytes().as_vec(), b"g".to_vec());
    assert_eq!(data.maybe_id(), None);
    data.set_maybe_id(Some(id(5)));
    assert_eq!(data.maybe_id(), Some(id(5)));
    data.add_child(leaf("oo", 6));
    assert_eq!(data.find_best_child(list("oo")), (Some(2), 2));
    let _ = data.children();
    let copy = RadixNode::Internal(data);
    assert_eq!(copy.count_nodes(), 4);
    assert_eq!(copy.get(b"gizz"), Some(id(1)));
    assert_eq!(copy.get(b"goo"), Some(id(6)));
    assert_eq!(copy.get(b"g"), Some(id(5)));
    assert_eq!(node.count_nodes(), 3);
}

#[test]
fn get_and_contains_agree_on_a_node() {
    let (node, _) = fizz_fang();
    for key in ["fizz", "fang", "f", "fi", "fizzy", "", "g"] {
        assert_eq!(node.contains(key.as_bytes()), node.get(key.as_bytes()).is_some());
    }
    assert!(node.contains(b"fizz"));
    assert!(!node.contains(b"fiz"));
    assert!(!node.contains(b""));
}

#[test]
fn resolve_on_a_node_puts_the_prefix_in_front() {
    let (mut node, mut next) = fizz_fang();
    node.insert(list("f"), &mut next);
    assert_eq!(node.resolve(id(1), CharList::empty()), Some("fizz".to_string()));
    assert_eq!(node.resolve(id(2), list("of")), Some("offang".to_string()));
    assert_eq!(node.resolve(id(3), list("el")), Some("elf".to_string()));
    assert_eq!(node.resolve(id(4), CharList::empty()), None);
    assert_eq!(leaf("x", 1).resolve(id(1), list("a")), Some("ax".to_string()));
    assert_eq!(leaf("x", 1).resolve(id(2), list("a")), None);
}

#[test]
fn node_size_is_a_multiple_of_the_node_type() {
    let (mut node, mut next) = fizz_fang();
    let unit = std::mem::size_of::<RadixNode>();
    assert_eq!(leaf("x", 1).size_of(), unit);
    assert_eq!(node.size_of(), 3 * unit);
    node.insert(list("fizzy"), &mut next);
    assert_eq!(node.size_of(), 4 * unit);
}

#[test]
fn clone_of_node_is_independent() {
    let (node, mut next) = fizz_fang();
    let mut copy = node.clone();
    copy.insert(list("foo"), &mut next);
    assert_eq!(copy.count_nodes(), 4);
    assert_eq!(node.count_nodes(), 3);
    assert_eq!(node.get(b"foo"), None);
    assert_eq!(copy.get(b"fizz"), Some(id(1)));
}
