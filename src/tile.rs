use vstd::prelude::*;

verus! {

/// A square of the board on which nothing has been played yet.
#[derive(Debug, PartialEq, Eq, Structural, Clone, Copy)]
pub enum BoardTile {
    EmptyTile,
    /// Multiplies the value of the letter played on it (2 or 3).
    LetterBonusTile(u8),
    /// Multiplies the value of the word played through it (2 or 3).
    WordBonusTile(u8),
}

/// A letter that lies on the board, always stored in lowercase.
#[derive(Debug, PartialEq, Eq, Structural, Clone, Copy)]
pub enum PlayedTile {
    LetterTile(char),
    /// A joker standing for the given letter; it scores nothing.
    JokerTile(char),
}

#[derive(Debug, PartialEq, Eq, Structural, Clone, Copy)]
pub enum Tile {
    Board(BoardTile),
    Played(PlayedTile),
}

impl Tile {
    pub open spec fn wf(self) -> bool {
        match self {
            Tile::Board(BoardTile::EmptyTile) => true,
            Tile::Board(BoardTile::LetterBonusTile(n)) => n == 2 || n == 3,
            Tile::Board(BoardTile::WordBonusTile(n)) => n == 2 || n == 3,
            Tile::Played(PlayedTile::LetterTile(c)) => 'a' <= c <= 'z',
            Tile::Played(PlayedTile::JokerTile(c)) => 'a' <= c <= 'z',
        }
    }

    pub open spec fn spec_is_occupied(&self) -> bool {
        self is Played
    }

    /// The letter as it reads on the board: a joker reads in uppercase.
    pub open spec fn spec_letter(&self) -> Option<char> {
        match *self {
            Tile::Played(PlayedTile::LetterTile(c)) => Some(c),
            Tile::Played(PlayedTile::JokerTile(c)) => Some(upper(c)),
            _ => None,
        }
    }

    #[verifier::when_used_as_spec(spec_is_occupied)]
    pub fn is_occupied(&self) -> (r: bool)
        ensures
            r == self.spec_is_occupied(),
    {
        match self {
            Tile::Played(_) => true,
            _ => false,
        }
    }

    #[verifier::when_used_as_spec(spec_letter)]
    pub fn letter(&self) -> (r: Option<char>)
        requires
            self.wf(),
        ensures
            r == self.spec_letter(),
    {
        match self {
            Tile::Played(PlayedTile::LetterTile(c)) => Some(*c),
            Tile::Played(PlayedTile::JokerTile(c)) => Some(to_upper(*c)),
            _ => None,
        }
    }
}

pub open spec fn upper(c: char) -> char {
    if 'a' <= c <= 'z' {
        ((c as u32) - 32) as char
    } else {
        c
    }
}

pub open spec fn lower(c: char) -> char {
    if 'A' <= c <= 'Z' {
        ((c as u32) + 32) as char
    } else {
        c
    }
}

pub proof fn lemma_case_round_trip(c: char)
    ensures
        'a' <= c <= 'z' ==> lower(upper(c)) == c && 'A' <= upper(c) <= 'Z',
        'A' <= c <= 'Z' ==> upper(lower(c)) == c && 'a' <= lower(c) <= 'z',
{
}

pub fn to_upper(c: char) -> (r: char)
    ensures
        r == upper(c),
{
    if 'a' <= c && c <= 'z' {
        ((c as u32) - 32) as u8 as char
    } else {
        c
    }
}

pub fn to_lower(c: char) -> (r: char)
    ensures
        r == lower(c),
{
    if 'A' <= c && c <= 'Z' {
        ((c as u32) + 32) as u8 as char
    } else {
        c
    }
}

} // verus!
