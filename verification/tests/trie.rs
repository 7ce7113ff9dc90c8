use sdtrie::dtrie::{CharList, Identifier, RadixNode, RadixTrie};

fn trie_of(words: &[&str]) -> (RadixTrie, Vec<Identifier>) {
    let mut trie = RadixTrie::new();
    let mut ids = Vec::new();
    for word in words {
        ids.push(trie.get_or_intern(word.to_string()));
    }
    (trie, ids)
}

#[test]
fn identifiers_count_up_from_one() {
    let (_, ids) = trie_of(&["foo", "bar", "", "food"]);
    assert_eq!(
        ids,
        vec![
            Identifier::from(1),
            Identifier::from(2),
            Identifier::from(3),
            Identifier::from(4)
        ]
    );
}

#[test]
fn round_trip_on_examples() {
    let words = [
        "foo", "fuh", "fizz", "fang", "", "f", "fizzy", "1080", "10-point", "10th", "10", "bar",
    ];
    let (trie, ids) = trie_of(&words);
    for (word, id) in words.iter().zip(ids.iter()) {
        assert_eq!(trie.resolve(*id), Some(word.to_string()));
    }
}

#[test]
fn interning_twice_gives_the_same_identifier_and_no_new_node() {
    let words = ["foo", "fuh", "fizz", "fang", "", "f"];
    let (mut trie, ids) = trie_of(&words);
    let count = trie.count_nodes();
    for (word, id) in words.iter().zip(ids.iter()) {
        assert_eq!(trie.get_or_intern(word.to_string()), *id);
        assert_eq!(trie.count_nodes(), count);
    }
    assert_eq!(trie.get_or_intern("next".to_string()), Identifier::from(7));
}

#[test]
fn contains_agrees_with_get() {
    let (trie, _) = trie_of(&["foo", "boo", "food", "god", "goodbye", ""]);
    for word in [
        "foo", "boo", "food", "god", "goodbye", "", "f", "fo", "foods", "g", "go", "good", "x",
    ] {
        assert_eq!(
            trie.contains(word.to_string()),
            trie.get(word.to_string()).is_some()
        );
    }
    assert!(trie.contains("goodbye".to_string()));
    assert!(!trie.contains("good".to_string()));
}

#[test]
fn different_strings_get_different_identifiers() {
    let words = ["a", "aa", "aaa", "b", "ab", "ba", "", "abc"];
    let (_, ids) = trie_of(&words);
    for i in 0..ids.len() {
        for j in 0..ids.len() {
            if i != j {
                assert_ne!(ids[i], ids[j]);
            }
        }
    }
}

#[test]
fn get_finds_strings_that_end_at_internal_nodes() {
    let (trie, ids) = trie_of(&["a", "aa", "aaa"]);
    assert_eq!(trie.get("a".to_string()), Some(ids[0]));
    assert_eq!(trie.get("aa".to_string()), Some(ids[1]));
    assert_eq!(trie.get("aaa".to_string()), Some(ids[2]));
    assert_eq!(trie.get("aaaa".to_string()), None);
    assert_eq!(trie.count_nodes(), 3);
}

#[test]
fn empty_string_has_a_place_of_its_own() {
    let mut trie = RadixTrie::new();
    assert_eq!(trie.get(String::new()), None);
    assert!(!trie.contains(String::new()));
    let id = trie.get_or_intern(String::new());
    assert_eq!(id, Identifier::from(1));
    assert_eq!(trie.is_empty(), false);
    assert_eq!(trie.count_nodes(), 0);
    assert_eq!(trie.get(String::new()), Some(id));
    assert!(trie.contains(String::new()));
    assert_eq!(trie.resolve(id), Some(String::new()));
    assert_eq!(trie.get_or_intern(String::new()), id);
    assert_eq!(trie.intern_empty_string(), id);
    assert_eq!(trie.get_or_intern("x".to_string()), Identifier::from(2));
    assert_eq!(trie.resolve(id), Some(String::new()));
}

#[test]
fn resolve_of_unknown_identifier_is_none() {
    let (trie, _) = trie_of(&["foo", "fizz"]);
    assert_eq!(trie.resolve(Identifier::from(3)), None);
    assert_eq!(trie.resolve(Identifier::from(0)), None);
    assert_eq!(RadixTrie::new().resolve(Identifier::from(1)), None);
}

#[test]
fn empty_trie_knows_nothing() {
    let trie = RadixTrie::new();
    assert!(trie.is_empty());
    assert_eq!(trie.count_nodes(), 0);
    assert_eq!(trie.get("foo".to_string()), None);
    assert!(!trie.contains("foo".to_string()));
}

#[test]
fn strings_that_split_inside_a_character_resolve_whole() {
    let words = ["é", "è", "ée", "日本", "日本語", "日曜"];
    let (trie, ids) = trie_of(&words);
    for (word, id) in words.iter().zip(ids.iter()) {
        assert_eq!(trie.resolve(*id), Some(word.to_string()));
        assert_eq!(trie.get(word.to_string()), Some(*id));
    }
    assert!(!trie.contains("日".to_string()));
}

#[test]
fn intern_takes_bytes() {
    let mut trie = RadixTrie::new();
    let first = trie.intern_empty_trie(CharList::new(b"fizz".to_vec()));
    let second = trie.intern(CharList::new(b"fang".to_vec()));
    let third = trie.intern(CharList::new(b"bar".to_vec()));
    assert_eq!(first, Identifier::from(1));
    assert_eq!(second, Identifier::from(2));
    assert_eq!(third, Identifier::from(3));
    assert_eq!(trie.intern(CharList::new(b"fizz".to_vec())), first);
    assert_eq!(trie.count_nodes(), 4);
    assert_eq!(trie.get("fang".to_string()), Some(second));
    assert_eq!(trie.resolve(third), Some("bar".to_string()));
}

#[test]
fn trie_size_counts_itself_and_its_nodes() {
    let (trie, _) = trie_of(&["foo", "fuh", "fizz", "fang"]);
    let expected =
        std::mem::size_of::<RadixTrie>() + 5 * std::mem::size_of::<RadixNode>();
    assert_eq!(trie.size_of(), expected);
    assert_eq!(RadixTrie::new().size_of(), std::mem::size_of::<RadixTrie>());
}

#[test]
fn node_counts_grow_by_at_most_two() {
    let mut trie = RadixTrie::new();
    let mut before = trie.count_nodes();
    for word in ["abcx", "abcy", "ab", "abd", "a", "b", "abcxyz", "abcx"] {
        trie.get_or_intern(word.to_string());
        let after = trie.count_nodes();
        assert!(before <= after && after <= before + 2);
        before = after;
    }
    assert_eq!(before, 8);
}

#[test]
fn prefix_chain_round_trips_in_every_order() {
    let orders = [
        ["a", "aa", "aaa"],
        ["a", "aaa", "aa"],
        ["aa", "a", "aaa"],
        ["aa", "aaa", "a"],
        ["aaa", "a", "aa"],
        ["aaa", "aa", "a"],
    ];
    for order in orders {
        let (trie, ids) = trie_of(&order);
        for (word, id) in order.iter().zip(ids.iter()) {
            assert_eq!(trie.resolve(*id), Some(word.to_string()));
        }
        assert_eq!(trie.count_nodes(), 3);
    }
}

#[test]
fn many_words_round_trip() {
    let mut words = Vec::new();
    for a in ["", "re", "un", "over", "under"] {
        for b in ["do", "done", "doing", "take", "taken", "taking", "t"] {
            for c in ["", "s", "ly", "ness"] {
                words.push(format!("{}{}{}", a, b, c));
            }
        }
    }
    let mut trie = RadixTrie::new();
    let mut ids = Vec::new();
    for word in words.iter() {
        ids.push(trie.get_or_intern(word.clone()));
    }
    for (word, id) in words.iter().zip(ids.iter()) {
        assert_eq!(trie.resolve(*id), Some(word.clone()));
        assert_eq!(trie.get(word.clone()), Some(*id));
        assert!(trie.contains(word.clone()));
    }
    assert!(!trie.contains("overdon".to_string()));
    assert!(!trie.contains("und".to_string()));
}

#[test]
fn words_from_a_small_alphabet_agree_with_a_hash_map() {
    let mut state: u64 = 0x2545_f491_4f6c_dd1d;
    let mut step = move || {
        state = state
            .wrapping_mul(6364136223846793005)
            .wrapping_add(1442695040888963407);
        (state >> 33) as usize
    };
    let alphabet = ["a", "b", "c", "é"];
    let mut trie = RadixTrie::new();
    let mut expected: std::collections::HashMap<String, Identifier> =
        std::collections::HashMap::new();
    let mut issued: u64 = 0;
    for _ in 0..3000 {
        let length = step() % 7;
        let mut word = String::new();
        for _ in 0..length {
            word.push_str(alphabet[step() % alphabet.len()]);
        }
        let before = trie.count_nodes();
        let id = trie.get_or_intern(word.clone());
        let after = trie.count_nodes();
        match expected.get(&word) {
            Some(known) => {
                assert_eq!(id, *known);
                assert_eq!(before, after);
            }
            None => {
                issued += 1;
                assert_eq!(id, Identifier::from(issued));
                assert!(before <= after && after <= before + 2);
                expected.insert(word.clone(), id);
            }
        }
    }
    for (word, id) in expected.iter() {
        assert_eq!(trie.get(word.clone()), Some(*id));
        assert!(trie.contains(word.clone()));
        assert_eq!(trie.resolve(*id), Some(word.clone()));
    }
    for _ in 0..3000 {
        let length = step() % 9;
        let mut word = String::new();
        for _ in 0..length {
            word.push_str(alphabet[step() % alphabet.len()]);
        }
        assert_eq!(trie.get(word.clone()), expected.get(&word).copied());
        assert_eq!(trie.contains(word.clone()), expected.contains_key(&word));
    }
    assert_eq!(trie.resolve(Identifier::from(issued + 1)), None);
    assert!(trie.count_nodes() <= 2 * issued);
}

#[test]
fn characters_of_every_width_round_trip() {
    let words = [
        "\u{7f}",
        "\u{80}",
        "\u{7ff}",
        "\u{800}",
        "\u{ffff}",
        "\u{10000}",
        "\u{10ffff}",
        "\u{1f600}",
        "\u{1f601}",
    ];
    let (trie, ids) = trie_of(&words);
    for (word, id) in words.iter().zip(ids.iter()) {
        assert_eq!(trie.resolve(*id), Some(word.to_string()));
    }
    assert_eq!(trie.count_nodes(), 11);
}
