use rs_scrabble::{ConstraintLetters, ConstraintNbLetters, ConstraintWords, WordToFill};

#[test]
fn lengths_are_sorted_and_fused() {
    let mut l: Option<Vec<u8>> = Some(vec![3, 0, 5, 3, 1]);
    l.sort_and_fuse();
    assert_eq!(l, Some(vec![5, 3, 1]));
    let mut none: Option<Vec<u8>> = None;
    none.sort_and_fuse();
    assert_eq!(none, None);
}

#[test]
fn lengths_decrease_one_position() {
    let mut l: Option<Vec<u8>> = Some(vec![3, 1]);
    l.sort_and_fuse();
    assert!(!l.valid());
    assert!(l.decrease());
    assert_eq!(l, Some(vec![2, 0]));
    assert!(l.valid());
    assert!(l.decrease());
    assert_eq!(l, Some(vec![1]));
    assert!(!l.valid());
    assert!(l.decrease());
    assert!(l.valid());
    assert!(!l.decrease());
    assert_eq!(l, Some(vec![]));
    assert!(!l.valid());

    let mut none: Option<Vec<u8>> = None;
    assert!(none.valid());
    assert!(none.decrease());
}

#[test]
fn fixed_letters_last_entry_wins() {
    let mut f: Option<Vec<(u8, char)>> = Some(vec![(1, 'a'), (4, 'e'), (1, 'b')]);
    f.sort_and_fuse();
    assert_eq!(f, Some(vec![(4, 'e'), (1, 'b')]));
    assert_eq!(f.decrease(), None);
    assert_eq!(f, Some(vec![(3, 'e'), (0, 'b')]));
    assert_eq!(f.decrease(), Some('b'));
    assert_eq!(f, Some(vec![(2, 'e')]));
    assert_eq!(f.decrease(), None);
    assert_eq!(f.decrease(), None);
    assert_eq!(f.decrease(), Some('e'));
    assert_eq!(f, Some(vec![]));
    assert_eq!(f.decrease(), None);

    let mut none: Option<Vec<(u8, char)>> = None;
    none.sort_and_fuse();
    assert_eq!(none.decrease(), None);
}

#[test]
fn crossing_words_complete_at_their_position() {
    let w = |a: &str, b: &str| WordToFill::new(a.to_string(), b.to_string()).unwrap();
    let mut c: Option<Vec<(u8, WordToFill)>> = Some(vec![(0, w("ba", "re")), (2, w("a", "")), (0, w("ar", "re"))]);
    c.sort_and_fuse();
    assert_eq!(c, Some(vec![(2, w("a", "")), (0, w("ar", "re"))]));
    assert_eq!(c.decrease('b'), Some("arbre".to_string()));
    assert_eq!(c.decrease('x'), None);
    assert_eq!(c.decrease('s'), Some("as".to_string()));
    assert_eq!(c.decrease('s'), None);
}

#[test]
fn streams_keep_none_and_empty_apart() {
    let mut none: Option<Vec<(u8, char)>> = None;
    assert_eq!(none.decrease(), None);
    assert_eq!(none, None);
    let mut one: Option<Vec<(u8, char)>> = Some(vec![(0, 'a')]);
    assert_eq!(one.decrease(), Some('a'));
    assert_eq!(one, Some(vec![]));
    let mut empty: Option<Vec<(u8, char)>> = Some(vec![]);
    empty.sort_and_fuse();
    assert_eq!(empty, Some(vec![]));
    let mut words: Option<Vec<(u8, WordToFill)>> = None;
    words.sort_and_fuse();
    assert_eq!(words.decrease('a'), None);
    assert_eq!(words, None);
}
