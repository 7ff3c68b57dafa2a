use vstd::prelude::*;

verus! {

/// A character that has no value: neither a letter nor a joker letter.
#[derive(Debug, PartialEq, Eq, Structural, Clone, Copy)]
pub struct LetterValueError;

pub open spec fn is_lower(c: char) -> bool {
    'a' <= c && c <= 'z'
}

pub open spec fn is_upper(c: char) -> bool {
    'A' <= c && c <= 'Z'
}

/// Points of a lowercase letter (French tile values).
pub open spec fn letter_value(c: char) -> nat {
    if c == 'a' || c == 'e' || c == 'i' || c == 'l' || c == 'n' || c == 'o' || c == 'r' || c == 's'
        || c == 't' || c == 'u' {
        1
    } else if c == 'd' || c == 'g' || c == 'm' {
        2
    } else if c == 'b' || c == 'c' || c == 'p' {
        3
    } else if c == 'f' || c == 'h' || c == 'v' {
        4
    } else if c == 'j' || c == 'q' {
        8
    } else {
        10
    }
}

/// Value of a character as it is written in a word: a lowercase letter
/// scores its points, an uppercase letter marks a joker and scores nothing.
pub open spec fn char_value(c: char) -> Option<nat> {
    if is_lower(c) {
        Some(letter_value(c))
    } else if is_upper(c) {
        Some(0)
    } else {
        None
    }
}

/// Sum of the values of a word, or `None` if one character has no value.
pub open spec fn str_value(s: Seq<char>) -> Option<nat>
    decreases s.len(),
{
    if s.len() == 0 {
        Some(0)
    } else {
        match (str_value(s.drop_last()), char_value(s.last())) {
            (Some(a), Some(b)) => Some(a + b),
            _ => None,
        }
    }
}

pub proof fn lemma_str_value_bound(s: Seq<char>)
    ensures
        str_value(s) matches Some(v) ==> v <= 10 * s.len(),
    decreases s.len(),
{
    if s.len() > 0 {
        lemma_str_value_bound(s.drop_last());
    }
}

/// A word whose characters all have a value has a value.
pub proof fn lemma_str_value_some(s: Seq<char>)
    requires
        forall|i: int| 0 <= i < s.len() ==> (#[trigger] char_value(s[i])) is Some,
    ensures
        str_value(s) is Some,
    decreases s.len(),
{
    if s.len() > 0 {
        assert forall|i: int| 0 <= i < s.drop_last().len() implies (#[trigger] char_value(s.drop_last()[i])) is Some by {
            assert(s.drop_last()[i] == s[i]);
        }
        lemma_str_value_some(s.drop_last());
    }
}

/// Value of one character.
pub fn get_value(c: char) -> (r: Result<usize, LetterValueError>)
    ensures
        r matches Ok(v) ==> char_value(c) == Some(v as nat),
        r is Err <==> char_value(c) is None,
{
    if 'A' <= c && c <= 'Z' {
        return Ok(0);
    }
    match c {
        'a' | 'e' | 'i' | 'l' | 'n' | 'o' | 'r' | 's' | 't' | 'u' => Ok(1),
        'd' | 'g' | 'm' => Ok(2),
        'b' | 'c' | 'p' => Ok(3),
        'f' | 'h' | 'v' => Ok(4),
        'j' | 'q' => Ok(8),
        'k' | 'w' | 'x' | 'y' | 'z' => Ok(10),
        _ => Err(LetterValueError),
    }
}

/// Sum of the values of the characters of a word.
pub fn get_str_value(s: &Vec<char>) -> (r: Result<usize, LetterValueError>)
    requires
        s.len() <= usize::MAX / 10,
    ensures
        r matches Ok(v) ==> str_value(s@) == Some(v as nat),
        r is Err <==> str_value(s@) is None,
{
    let mut total: usize = 0;
    let mut i: usize = 0;
    while i < s.len()
        invariant
            i <= s.len() <= usize::MAX / 10,
            str_value(s@.subrange(0, i as int)) == Some(total as nat),
            total <= 10 * i,
        decreases s.len() - i,
    {
        assert(s@.subrange(0, i + 1).drop_last() == s@.subrange(0, i as int));
        match get_value(s[i]) {
            Ok(v) => {
                total = total + v;
            },
            Err(e) => {
                assert forall|k: int| i + 1 <= k <= s.len() implies str_value(s@.subrange(0, k)) is None by {
                    lemma_value_none_extends(s@, i as int + 1, k);
                }
                assert(s@.subrange(0, s.len() as int) == s@);
                return Err(e);
            },
        }
        i = i + 1;
    }
    assert(s@.subrange(0, s.len() as int) == s@);
    Ok(total)
}

proof fn lemma_value_none_extends(s: Seq<char>, i: int, k: int)
    requires
        0 <= i <= k <= s.len(),
        str_value(s.subrange(0, i)) is None,
    ensures
        str_value(s.subrange(0, k)) is None,
    decreases k - i,
{
    if k > i {
        lemma_value_none_extends(s, i, k - 1);
        assert(s.subrange(0, k).drop_last() == s.subrange(0, k - 1));
    }
}

} // verus!
