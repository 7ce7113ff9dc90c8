use sdtrie::dtrie::RadixTrie;

#[test]
fn radix_test_is_empty() {
    println!("Running empty test");
    let dlb = RadixTrie::new();
    assert_eq!(dlb.is_empty(), true);
}

#[test]
fn test_simple_get() {
    println!("Running simple get test");
    let string = "foo".to_owned();
    let mut dlb = RadixTrie::new();
    let id = dlb.get_or_intern(string.clone());
    assert_eq!(dlb.is_empty(), false);
    let found = dlb.contains(string.clone());
    assert_eq!(found, true);
    let found_id = dlb.get(string.clone()).unwrap();
    assert_eq!(id, found_id);
}

#[test]
fn test_two_leaves() {
    println!("Running two leaves test");
    let strings = vec![String::from("foo"), String::from("boo")];
    let mut dlb = RadixTrie::new();
    strings
        .clone()
        .into_iter()
        .map(|string| (dlb.get_or_intern(string.clone()), dlb.get(string)))
        .for_each(|(orig, obs)| {
            assert_eq!(Some(orig), obs);
        });
}

#[test]
fn test_not_contained() {
    println!("Running not contained test");
    let mut dlb = RadixTrie::new();
    vec!["foo", "boo", "food", "god", "goodbye"]
        .into_iter()
        .map(|x| String::from(x))
        .for_each(|x| {
            dlb.get_or_intern(x);
        });
    let not_contained = vec!["foog", "fb", "boob", "foodstuff", "fish", "goodnight"];
    not_contained
        .into_iter()
        .map(|x| String::from(x))
        .map(|x| dlb.contains(x))
        .for_each(|x| assert_eq!(x, false));
}
