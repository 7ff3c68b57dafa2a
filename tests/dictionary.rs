use rs_scrabble::{StrTree, WordToFill};

const WORDS: &str = "arbre\nbar\nbarre\nmazout\ncenestpasunmotduscrabble\n";

fn test_dict() -> StrTree {
    StrTree::from_text(WORDS)
}

fn get_anagrams(letters: &str) -> Vec<String> {
    let tree = test_dict();
    tree.get_anagrams(letters, None, None, None)
}

fn found_in_vec<T>(el: &T, vec: &Vec<T>) -> bool
where
    T: std::cmp::PartialEq,
{
    for el2 in vec.iter() {
        if *el == *el2 {
            return true;
        }
    }
    false
}

fn unordered_equal<T>(v1: &Vec<T>, v2: &Vec<T>) -> bool
where
    T: std::cmp::PartialEq,
{
    for el in v1.iter() {
        if !found_in_vec(el, v2) {
            return false;
        }
    }
    for el in v2.iter() {
        if !found_in_vec(el, v1) {
            return false;
        }
    }
    true
}

fn strings(v: &[&str]) -> Vec<String> {
    v.iter().map(|s| s.to_string()).collect()
}

#[test]
fn load_success() {
    let _ = test_dict();
}

#[test]
fn lexicon_text_lines() {
    let mut tree = StrTree::from_text("arbre\r\nBAR\n\nbar re\nmer");
    assert!(tree.is_word("arbre"));
    assert!(tree.is_word("mer"));
    assert!(!tree.is_word("BAR"));
    assert!(!tree.is_word("bar"));
    assert!(!tree.is_word(""));
    tree.fill_with_text("bar\n");
    assert!(tree.is_word("bar"));
    assert!(tree.is_word("arbre"));
}

#[test]
fn existing_words() {
    let tree = test_dict();
    assert!(tree.is_word("arbre"));
    assert!(tree.is_word("bar"));
    assert!(tree.is_word("barre"));
    assert!(tree.is_word("mazout"));
    assert!(tree.is_word("cenestpasunmotduscrabble"));
    assert!(!tree.is_word("erreur"));
}

#[test]
fn add_word() {
    let mut tree = test_dict();
    assert!(!tree.is_word("erreur"));
    tree.add_word("erreur");
    assert!(tree.is_word("erreur"));
}

#[test]
fn prefixes_are_not_words() {
    let tree = test_dict();
    assert!(!tree.is_word("ba"));
    assert!(!tree.is_word(""));
    assert!(!tree.is_word("barres"));
    assert!(tree.get_node("ba").is_some());
    assert!(tree.get_node("bz").is_none());
}

#[test]
fn no_double_without_joker() {
    let anagrams = get_anagrams("arbre");

    for i1 in 0..anagrams.len() {
        for i2 in 0..anagrams.len() {
            if i1 == i2 {
                continue;
            }
            assert_ne!(anagrams[i1], anagrams[i2]);
        }
    }
}

#[test]
fn all_anagrams_without_joker() {
    let anagrams = get_anagrams("arbre");
    let correct_answer = strings(&["arbre", "bar", "barre"]);
    assert!(unordered_equal(&anagrams, &correct_answer));
}

#[test]
fn all_anagrams_with_joker() {
    let anagrams = get_anagrams("arbr0");
    let correct_answer = strings(&["arbrE", "bar", "Bar", "bAr", "baR", "barrE"]);
    assert!(unordered_equal(&anagrams, &correct_answer));
}

#[test]
fn no_anagrams() {
    let empty = &Vec::<String>::new();
    assert_eq!(&get_anagrams(""), empty);
    assert_eq!(&get_anagrams("zzz"), empty);
    assert_eq!(&get_anagrams("00"), empty);
}

#[test]
fn nb_letters_constraints() {
    let tree = test_dict();
    let mut correct_answer = strings(&["arbre", "barre"]);

    assert!(unordered_equal(
        &tree.get_anagrams("arbre", Some(vec![]), None, None),
        &Vec::<String>::new()
    ));

    assert!(unordered_equal(
        &tree.get_anagrams("arbre", Some(vec![3]), None, None),
        &strings(&["bar"])
    ));

    assert!(unordered_equal(
        &tree.get_anagrams("arbre", Some(vec![5]), None, None),
        &correct_answer
    ));

    correct_answer.push("bar".to_string());
    assert!(unordered_equal(
        &tree.get_anagrams("arbre", Some(vec![3, 5]), None, None),
        &correct_answer
    ));
}

#[test]
fn single_length_gives_that_length() {
    let tree = test_dict();
    for w in tree.get_anagrams("arbr0", Some(vec![3]), None, None) {
        assert_eq!(w.chars().count(), 3);
    }
    assert_eq!(tree.get_anagrams("arbr0", Some(vec![3]), None, None).len(), 4);
}

#[test]
fn no_letter_actually_used() {
    let tree = test_dict();
    let empty = &Vec::<String>::new();

    assert!(unordered_equal(&tree.get_anagrams("", Some(vec![0]), None, None), empty));
    assert!(unordered_equal(
        &tree.get_anagrams("", Some(vec![0]), Some(vec![(0, 'b'), (1, 'a'), (2, 'r')]), None),
        empty
    ));
}

#[test]
fn nb_letters_does_not_include_constraints() {
    let tree = test_dict();

    assert!(unordered_equal(
        &tree.get_anagrams("re", Some(vec![2]), Some(vec![(0, 'b'), (1, 'a'), (2, 'r')]), None),
        &Vec::<String>::new()
    ));
    assert!(unordered_equal(
        &tree.get_anagrams("re", Some(vec![5]), Some(vec![(0, 'b'), (1, 'a'), (2, 'r')]), None),
        &strings(&["___re"])
    ));
}

#[test]
fn letters_constraints() {
    let tree = test_dict();

    assert!(unordered_equal(
        &tree.get_anagrams("arbe", None, Some(vec![(2, 'z')]), None),
        &Vec::<String>::new()
    ));

    assert!(unordered_equal(
        &tree.get_anagrams("rbre", None, Some(vec![(0, 'a')]), None),
        &strings(&["_rbre"])
    ));
    assert!(unordered_equal(
        &tree.get_anagrams("arbe", None, Some(vec![(1, 'r')]), None),
        &strings(&["a_bre"])
    ));

    assert!(unordered_equal(
        &tree.get_anagrams("arbe", None, Some(vec![(3, 'r')]), None),
        &strings(&["arb_e", "bar_e"])
    ));

    assert!(unordered_equal(
        &tree.get_anagrams("arbr", None, Some(vec![(4, 'e')]), None),
        &strings(&["arbr_", "barr_", "bar"])
    ));
}

#[test]
fn last_fixed_letter_wins() {
    let tree = test_dict();
    assert!(unordered_equal(
        &tree.get_anagrams("rbre", None, Some(vec![(0, 'z'), (0, 'a')]), None),
        &strings(&["_rbre"])
    ));
}

#[test]
fn words_constraint() {
    let tree = test_dict();

    let mut correct_answer = strings(&["bar"]);
    let mut constraints = Some(vec![(2, WordToFill::new("ba".to_string(), "re".to_string()).unwrap())]);
    assert!(unordered_equal(
        &tree.get_anagrams("arbre", Some(vec![2, 3]), None, constraints.clone()),
        &correct_answer
    ));

    correct_answer = strings(&["barre", "bar"]);
    constraints = Some(vec![(2, WordToFill::new("ba".to_string(), "re".to_string()).unwrap())]);
    assert!(unordered_equal(
        &tree.get_anagrams("arbre", None, None, constraints.clone()),
        &correct_answer
    ));

    correct_answer = strings(&["arbre"]);
    constraints = Some(vec![(2, WordToFill::new("ar".to_string(), "re".to_string()).unwrap())]);
    assert!(unordered_equal(
        &tree.get_anagrams("arbre", None, None, constraints.clone()),
        &correct_answer
    ));
}

#[test]
fn cross_word_with_unknown_beginning() {
    let tree = test_dict();
    let constraints = Some(vec![(1, WordToFill::new("zz".to_string(), "".to_string()).unwrap())]);
    assert!(unordered_equal(
        &tree.get_anagrams("arbre", None, None, constraints),
        &strings(&[])
    ));
}

#[test]
fn all_constraints() {
    let tree = test_dict();
    let mut correct_answer = strings(&["b_r"]);

    assert!(unordered_equal(
        &tree.get_anagrams(
            "rbre",
            Some(vec![2]),
            Some(vec![(1, 'a')]),
            Some(vec![(2, WordToFill::new("a".to_string(), "bre".to_string()).unwrap())])
        ),
        &Vec::<String>::new()
    ));

    assert!(unordered_equal(
        &tree.get_anagrams(
            "rbre",
            Some(vec![3]),
            Some(vec![(1, 'a')]),
            Some(vec![(2, WordToFill::new("a".to_string(), "bre".to_string()).unwrap())])
        ),
        &correct_answer
    ));

    correct_answer.push("b_rre".to_string());

    assert!(unordered_equal(
        &tree.get_anagrams("rbre", None, Some(vec![(1, 'a')]), Some(Vec::<(u8, WordToFill)>::new())),
        &correct_answer
    ));

    assert!(unordered_equal(
        &tree.get_anagrams("rbre", None, Some(vec![(1, 'a')]), None),
        &correct_answer
    ));
}

#[test]
fn word_to_fill_needs_a_part() {
    assert!(WordToFill::new("".to_string(), "".to_string()).is_err());
    let w = WordToFill::new("ar".to_string(), "re".to_string()).unwrap();
    assert_eq!(w.complete('b'), "arbre".to_string());
    let w2 = WordToFill::new("".to_string(), "ar".to_string()).unwrap();
    assert_eq!(w2.complete('b'), "bar".to_string());
}

#[test]
fn lexicon_text_counts_word_lines() {
    let mut tree = StrTree::init();
    assert_eq!(tree.fill_with_text("arbre\nBAR\n\nbar\r\nbar"), 3);
    assert!(tree.is_word("bar"));
}

#[test]
fn get_node_only_on_prefixes() {
    let tree = test_dict();
    assert!(tree.get_node("").is_some());
    assert!(tree.get_node("maz").is_some());
    assert!(tree.get_node("mazout").is_some());
    assert!(tree.get_node("mazouts").is_none());
    assert!(StrTree::init().get_node("").is_some());
    assert!(StrTree::init().get_node("a").is_none());
}

#[test]
fn usable_rack_keeps_rack_letters() {
    assert_eq!(rs_scrabble::usable_rack("aB!0z"), "a0z".to_string());
}
