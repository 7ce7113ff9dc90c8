use sdtrie::dtrie::char_list::CharIterator;
use sdtrie::dtrie::{CharList, Identifier, Matchable};

fn list(text: &str) -> CharList {
    CharList::new(text.as_bytes().to_vec())
}

#[test]
fn empty_list_has_no_bytes() {
    let empty = CharList::empty();
    assert_eq!(empty.len(), 0);
    assert_eq!(empty.as_vec(), Vec::<u8>::new());
    assert_eq!(empty.to_string(), "");
}

#[test]
fn new_list_holds_the_bytes_it_was_given() {
    let bytes = CharList::new(vec![1, 2, 3, 255]);
    assert_eq!(bytes.len(), 4);
    assert_eq!(bytes.as_vec(), vec![1, 2, 3, 255]);
}

#[test]
fn list_from_vec_holds_the_same_bytes() {
    let bytes = CharList::from(vec![7, 8]);
    assert_eq!(bytes.as_vec(), vec![7, 8]);
}

#[test]
fn clone_of_list_is_equal_and_apart() {
    let mut first = list("prefix");
    let second = first.clone();
    let _ = first.split_off(3);
    assert_eq!(first.as_vec(), b"pre".to_vec());
    assert_eq!(second.as_vec(), b"prefix".to_vec());
}

#[test]
fn split_off_keeps_the_prefix_and_returns_the_suffix() {
    let mut bytes = list("radix");
    let rest = bytes.split_off(2);
    assert_eq!(bytes.as_vec(), b"ra".to_vec());
    assert_eq!(rest.as_vec(), b"dix".to_vec());
    assert_eq!(bytes.len(), 2);
    assert_eq!(rest.len(), 3);
}

#[test]
fn split_off_at_the_ends() {
    let mut whole = list("abc");
    let rest = whole.split_off(3);
    assert_eq!(whole.as_vec(), b"abc".to_vec());
    assert_eq!(rest.len(), 0);

    let mut nothing = list("abc");
    let all = nothing.split_off(0);
    assert_eq!(nothing.len(), 0);
    assert_eq!(all.as_vec(), b"abc".to_vec());
}

#[test]
fn append_joins_without_changing_the_first() {
    let first = list("10");
    let joined = first.append(list("th"));
    assert_eq!(joined.as_vec(), b"10th".to_vec());
    assert_eq!(first.as_vec(), b"10".to_vec());
    assert_eq!(first.append(CharList::empty()).as_vec(), b"10".to_vec());
    assert_eq!(CharList::empty().append(list("x")).as_vec(), b"x".to_vec());
}

#[test]
fn to_string_decodes_utf8() {
    assert_eq!(list("10-point").to_string(), "10-point");
    assert_eq!(list("héllo wörld").to_string(), "héllo wörld");
    assert_eq!(CharList::new(vec![0xe2, 0x82, 0xac]).to_string(), "€");
}

#[test]
fn count_shared_prefix_counts_leading_equal_bytes() {
    let bytes = list("fizz");
    assert_eq!(bytes.count_shared_prefix(b"fang"), 1);
    assert_eq!(bytes.count_shared_prefix(b"fizz"), 4);
    assert_eq!(bytes.count_shared_prefix(b"fizzy"), 4);
    assert_eq!(bytes.count_shared_prefix(b"fi"), 2);
    assert_eq!(bytes.count_shared_prefix(b"bar"), 0);
    assert_eq!(bytes.count_shared_prefix(b""), 0);
    assert_eq!(CharList::empty().count_shared_prefix(b"fizz"), 0);
    assert_eq!(list("abcd").count_shared_prefix(b"abxd"), 2);
}

#[test]
fn similar_bytes_of_lists_is_the_shared_prefix() {
    assert_eq!(list("1080").similar_bytes(list("10-point")), 2);
    assert_eq!(list("10").similar_bytes(list("10th")), 2);
    assert_eq!(list("a").similar_bytes(list("b")), 0);
    assert_eq!(list("same").similar_bytes(list("same")), 4);
}

#[test]
fn shared_prefix_is_symmetric_on_examples() {
    let pairs = [("foo", "fuh"), ("", "x"), ("aaa", "aa"), ("abc", "abc")];
    for (left, right) in pairs {
        assert_eq!(
            list(left).similar_bytes(list(right)),
            list(right).similar_bytes(list(left))
        );
    }
}

#[test]
fn iterator_hands_out_bytes_in_order() {
    let mut cursor = list("abc").iter();
    assert_eq!(cursor.next(), Some(b'a'));
    assert_eq!(cursor.next(), Some(b'b'));
    assert_eq!(cursor.next(), Some(b'c'));
    assert_eq!(cursor.next(), None);
    assert_eq!(cursor.next(), None);
}

#[test]
fn iterator_over_nothing_is_done_at_once() {
    let mut cursor = CharIterator::new(Vec::new());
    assert_eq!(cursor.next(), None);
    let mut other = CharList::empty().iter();
    assert_eq!(other.next(), None);
}

#[test]
fn identifier_from_number_compares_by_number() {
    let one = Identifier::from(1);
    let two = Identifier::from(2);
    assert_eq!(one, Identifier::from(1));
    assert_ne!(one, two);
    assert!(one < two);
    assert!(two > one);
    assert_eq!(one.clone(), one);
}

#[test]
fn default_identifier_is_the_reserved_zero() {
    assert_eq!(Identifier::default(), Identifier::from(0));
}

#[test]
fn into_iter_hands_out_all_bytes() {
    let bytes: Vec<u8> = list("abc").into_iter().collect();
    assert_eq!(bytes, b"abc".to_vec());
    assert_eq!(CharList::empty().into_iter().next(), None);
}

#[test]
fn to_string_keeps_characters_of_every_width() {
    for text in [
        "\u{7f}",
        "\u{80}",
        "\u{7ff}",
        "\u{800}",
        "\u{ffff}",
        "\u{10000}",
        "\u{10ffff}",
        "a\u{1f600}b",
    ] {
        assert_eq!(list(text).to_string(), text);
    }
}
