use rs_scrabble::StrTree;

#[test]
fn inserted_word_is_member() {
    let mut tree = StrTree::init();
    assert!(!tree.is_word("mazout"));
    tree.add_word("mazout");
    assert!(tree.is_word("mazout"));
    tree.add_word("maz");
    assert!(tree.is_word("maz"));
    assert!(tree.is_word("mazout"));
    assert!(!tree.is_word("mazo"));
}

#[test]
fn unconstrained_anagrams_are_words_of_the_rack() {
    let mut tree = StrTree::init();
    for w in ["arbre", "bar", "barre", "are", "rab"] {
        tree.add_word(w);
    }
    let found = tree.get_anagrams("bar", None, None, None);
    let mut sorted = found.clone();
    sorted.sort();
    assert_eq!(sorted, vec!["bar".to_string(), "rab".to_string()]);
    for w in tree.get_anagrams("bare0", None, None, None) {
        assert!(tree.is_word(&w.to_lowercase()));
    }
}

fn count_plain_anagrams<D: rs_scrabble::Dictionnary>(d: &D, rack: &str) -> usize {
    d.get_anagrams(rack, None, None, None).len()
}

#[test]
fn dictionary_trait_on_trie() {
    let mut tree = StrTree::init();
    rs_scrabble::Dictionnary::add_word(&mut tree, "bar");
    assert!(rs_scrabble::Dictionnary::is_word(&tree, "bar"));
    assert_eq!(count_plain_anagrams(&tree, "rab"), 1);
}

#[test]
fn length_counts_anchored_squares() {
    let mut tree = StrTree::init();
    tree.add_word("bar");
    assert!(tree.get_anagrams("r", Some(vec![1]), Some(vec![(0, 'b'), (1, 'a')]), None).is_empty());
    assert_eq!(
        tree.get_anagrams("r", Some(vec![3]), Some(vec![(0, 'b'), (1, 'a')]), None),
        vec!["__r".to_string()]
    );
}

#[test]
fn anagrams_come_in_word_order() {
    let mut tree = StrTree::init();
    for w in ["arbre", "bar", "barre", "are", "rab"] {
        tree.add_word(w);
    }
    let found = tree.get_anagrams("arbre0", None, None, None);
    let mut sorted = found.clone();
    sorted.sort();
    assert_eq!(found, sorted);
    assert_eq!(found.first(), Some(&"Arbre".to_string()));
}
