use new_york_utils::levenshtein;

#[test]
fn levenshtein_it_works() {
    let distance = levenshtein(
        vec!["k", "i", "t", "t", "e", "n"],
        vec!["s", "m", "i", "t", "t", "e", "n"],
    );

    assert_eq!(distance.unwrap(), 2);

    let distance = levenshtein(
        vec!["k", "i", "t", "t", "e", "n"],
        vec!["f", "i", "t", "t", "i", "n", "g"],
    );

    assert_eq!(distance.unwrap(), 3);
}

#[test]
fn kitten_to_sitting_takes_three_edits() {
    let distance = levenshtein(
        vec!["k", "i", "t", "t", "e", "n"],
        vec!["s", "i", "t", "t", "i", "n", "g"],
    );
    assert_eq!(distance, Ok(3));
}

#[test]
fn distance_to_and_from_the_empty_sequence_is_the_length() {
    assert_eq!(levenshtein(Vec::<u8>::new(), vec![1, 2, 3]), Ok(3));
    assert_eq!(levenshtein(vec![1u8, 2, 3, 4], Vec::new()), Ok(4));
    assert_eq!(levenshtein(Vec::<u8>::new(), Vec::new()), Ok(0));
}

#[test]
fn distance_is_the_same_in_both_directions() {
    let pairs: Vec<(Vec<char>, Vec<char>)> = vec![
        ("kitten".chars().collect(), "sitting".chars().collect()),
        ("flaw".chars().collect(), "lawn".chars().collect()),
        ("intention".chars().collect(), "execution".chars().collect()),
        ("a".chars().collect(), "abcdef".chars().collect()),
    ];
    for (a, b) in pairs {
        assert_eq!(levenshtein(a.clone(), b.clone()), levenshtein(b, a));
    }
}

#[test]
fn distance_between_equal_sequences_is_zero() {
    assert_eq!(levenshtein(vec![1, 2, 3], vec![1, 2, 3]), Ok(0));
    assert_eq!(levenshtein(vec!["x"], vec!["x"]), Ok(0));
}

#[test]
fn each_kind_of_edit_costs_one() {
    assert_eq!(levenshtein(vec![1, 2, 3], vec![1, 9, 3]), Ok(1));
    assert_eq!(levenshtein(vec![1, 2, 3], vec![1, 3]), Ok(1));
    assert_eq!(levenshtein(vec![1, 3], vec![1, 2, 3]), Ok(1));
    assert_eq!(levenshtein(vec![1], vec![2]), Ok(1));
}

#[test]
fn known_distances() {
    let chars = |text: &str| text.chars().collect::<Vec<char>>();
    assert_eq!(levenshtein(chars("flaw"), chars("lawn")), Ok(2));
    assert_eq!(levenshtein(chars("intention"), chars("execution")), Ok(5));
    assert_eq!(levenshtein(chars("saturday"), chars("sunday")), Ok(3));
    assert_eq!(levenshtein(chars("abc"), chars("xyz")), Ok(3));
    assert_eq!(levenshtein(chars("ab"), chars("ba")), Ok(2));
}
