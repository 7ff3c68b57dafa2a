use vstd::prelude::*;
use crate::text::{chars_of, string_of};
use crate::tile::{Tile, BoardTile, PlayedTile, upper, lower, to_upper, to_lower, lemma_case_round_trip};
use crate::values::{is_lower, is_upper, letter_value, char_value, str_value, get_value, get_str_value, lemma_str_value_bound};
use crate::constraints::{PotentialWord, WordToFill};

verus! {

/// Side of the board.
pub const SIDE: usize = 15;

/// Number of squares.
pub const SIZE: usize = 225;

#[derive(Debug, PartialEq, Eq, Structural, Clone, Copy)]
pub enum DeserializingError {
    UnknownSymbol,
    WrongLength,
}

#[derive(Debug, PartialEq, Eq, Structural, Clone, Copy)]
pub enum WordError {
    TileOccupied,
    UnexpectedUnderscore,
    UnknownChar,
}

/// A 15x15 board. Square (x, y) is row x, column y; with `transposed`
/// set, every access swaps the two.
#[derive(Debug)]
pub struct Board {
    tiles: Vec<Tile>,
    transposed: bool,
}

/// The character that stands for a tile in the text form of a board.
pub open spec fn tile_char(t: Tile) -> char {
    match t {
        Tile::Board(BoardTile::EmptyTile) => '_',
        Tile::Board(BoardTile::LetterBonusTile(n)) => if n == 2 { '2' } else { '3' },
        Tile::Board(BoardTile::WordBonusTile(n)) => if n == 2 { '5' } else { '6' },
        Tile::Played(PlayedTile::LetterTile(c)) => c,
        Tile::Played(PlayedTile::JokerTile(c)) => upper(c),
    }
}

/// The tile a character of the text form stands for.
pub open spec fn token_tile(c: char) -> Option<Tile> {
    if c == '_' {
        Some(Tile::Board(BoardTile::EmptyTile))
    } else if c == '2' {
        Some(Tile::Board(BoardTile::LetterBonusTile(2)))
    } else if c == '3' {
        Some(Tile::Board(BoardTile::LetterBonusTile(3)))
    } else if c == '5' {
        Some(Tile::Board(BoardTile::WordBonusTile(2)))
    } else if c == '6' {
        Some(Tile::Board(BoardTile::WordBonusTile(3)))
    } else if is_lower(c) {
        Some(Tile::Played(PlayedTile::LetterTile(c)))
    } else if is_upper(c) {
        Some(Tile::Played(PlayedTile::JokerTile(lower(c))))
    } else {
        None
    }
}

/// Characters that separate tokens.
pub open spec fn is_separator(c: char) -> bool {
    c == ' ' || c == '\n' || c == '\r' || c == '\t'
}

/// The tokens of a text: its characters but the separators.
pub open spec fn tokens(s: Seq<char>) -> Seq<char>
    decreases s.len(),
{
    if s.len() == 0 {
        Seq::empty()
    } else if is_separator(s.last()) {
        tokens(s.drop_last())
    } else {
        tokens(s.drop_last()).push(s.last())
    }
}

/// The squares a text describes, in reading order, or why it describes none.
pub open spec fn deserialized(s: Seq<char>) -> Result<Seq<Tile>, DeserializingError> {
    let t = tokens(s);
    if exists|i: int| 0 <= i < t.len() && (#[trigger] token_tile(t[i])) is None {
        Err(DeserializingError::UnknownSymbol)
    } else if t.len() != SIZE {
        Err(DeserializingError::WrongLength)
    } else {
        Ok(Seq::new(t.len(), |i: int| token_tile(t[i])->0))
    }
}

/// Text of the first `k` squares in reading order: each square's character
/// and a space, and a newline after each row.
pub open spec fn serialized_prefix(grid: Seq<Tile>, k: int) -> Seq<char>
    decreases k,
{
    if k <= 0 {
        Seq::empty()
    } else {
        serialized_prefix(grid, k - 1) + seq![tile_char(grid[k - 1]), ' '] + if (k - 1) % 15 == 14 {
            seq!['\n']
        } else {
            Seq::empty()
        }
    }
}

pub open spec fn serialized(grid: Seq<Tile>) -> Seq<char> {
    serialized_prefix(grid, SIZE as int)
}

/// A board as a value: its squares as stored, row by row of the
/// untransposed board, and whether accesses swap (x, y).
pub struct BoardView {
    pub tiles: Seq<Tile>,
    pub transposed: bool,
}

impl View for Board {
    type V = BoardView;

    closed spec fn view(&self) -> BoardView {
        BoardView { tiles: self.tiles@, transposed: self.transposed }
    }
}

impl BoardView {
    /// The same squares, seen with (x, y) swapped or not.
    pub open spec fn with_orientation(self, transposed: bool) -> BoardView {
        BoardView { tiles: self.tiles, transposed }
    }

    pub open spec fn wf(&self) -> bool {
        &&& self.tiles.len() == SIZE
        &&& forall|i: int| 0 <= i < SIZE ==> (#[trigger] self.tiles[i]).wf()
    }

    /// Index in storage of square (x, y).
    pub open spec fn index_of(transposed: bool, x: int, y: int) -> int {
        if transposed {
            y * 15 + x
        } else {
            x * 15 + y
        }
    }

    /// The tile at (x, y), as the board is seen.
    pub open spec fn cell(&self, x: int, y: int) -> Tile {
        self.tiles[Self::index_of(self.transposed, x, y)]
    }

    /// The squares in reading order, as the board is seen.
    pub open spec fn grid(&self) -> Seq<Tile> {
        Seq::new(SIZE as nat, |k: int| self.cell(k / 15, k % 15))
    }

    pub proof fn lemma_cell_wf(&self, x: int, y: int)
        requires
            self.wf(),
            0 <= x < 15,
            0 <= y < 15,
        ensures
            self.cell(x, y).wf(),
    {
        assert(0 <= Self::index_of(self.transposed, x, y) < 225) by (nonlinear_arith)
            requires 0 <= x < 15, 0 <= y < 15;
        assert(self.tiles[Self::index_of(self.transposed, x, y)].wf());
    }

    pub open spec fn occupied(&self, x: int, y: int) -> bool {
        self.cell(x, y).spec_is_occupied()
    }

    /// The letter at (x, y) as it reads: a joker in uppercase.
    pub open spec fn letter(&self, x: int, y: int) -> char {
        self.cell(x, y).spec_letter()->0
    }

    /// Number of letters right above (x, y), up to the first free square.
    pub open spec fn run_above(&self, x: int, y: int) -> nat
        decreases x,
    {
        if x <= 0 || !self.occupied(x - 1, y) {
            0
        } else {
            1 + self.run_above(x - 1, y)
        }
    }

    /// Number of letters right below (x, y), down to the first free square.
    pub open spec fn run_below(&self, x: int, y: int) -> nat
        decreases 15 - x,
    {
        if x >= 14 || !self.occupied(x + 1, y) {
            0
        } else {
            1 + self.run_below(x + 1, y)
        }
    }

    /// The letters right above (x, y), top to bottom.
    pub open spec fn above(&self, x: int, y: int) -> Seq<char> {
        let n = self.run_above(x, y);
        Seq::new(n, |i: int| self.letter(x - n + i, y))
    }

    /// The letters right below (x, y), top to bottom.
    pub open spec fn below(&self, x: int, y: int) -> Seq<char> {
        Seq::new(self.run_below(x, y), |i: int| self.letter(x + 1 + i, y))
    }

    /// Whether a letter placed on the free square (x, y) makes a crossing word.
    pub open spec fn crosses(&self, x: int, y: int) -> bool {
        !self.occupied(x, y) && (self.run_above(x, y) > 0 || self.run_below(x, y) > 0)
    }

    /// Number of free squares among the first `k` from (x, y) along the row.
    pub open spec fn free_count(&self, x: int, y: int, k: int) -> nat
        decreases k,
    {
        if k <= 0 {
            0
        } else if self.occupied(x, y + k - 1) {
            self.free_count(x, y, k - 1)
        } else {
            self.free_count(x, y, k - 1) + 1
        }
    }

    /// Whether a letter in place or a crossing word lies among the first `k`
    /// squares from (x, y).
    pub open spec fn hit(&self, x: int, y: int, k: int) -> bool
        decreases k,
    {
        k > 0 && (self.hit(x, y, k - 1) || self.occupied(x, y + k - 1) || self.crosses(x, y + k - 1))
    }

    /// The letters in place among the first `k` squares, by position.
    pub open spec fn cond_fixed(&self, x: int, y: int, k: int) -> Seq<(u8, char)>
        decreases k,
    {
        if k <= 0 {
            Seq::empty()
        } else if self.occupied(x, y + k - 1) {
            self.cond_fixed(x, y, k - 1).push(((k - 1) as u8, lower(self.letter(x, y + k - 1))))
        } else {
            self.cond_fixed(x, y, k - 1)
        }
    }

    /// The crossing words among the first `k` squares, by position, in lowercase.
    pub open spec fn cond_cross(&self, x: int, y: int, k: int) -> Seq<(u8, (Seq<char>, Seq<char>))>
        decreases k,
    {
        if k <= 0 {
            Seq::empty()
        } else if self.crosses(x, y + k - 1) {
            self.cond_cross(x, y, k - 1).push(
                ((k - 1) as u8, (lower_seq(self.above(x, y + k - 1)), lower_seq(self.below(x, y + k - 1)))),
            )
        } else {
            self.cond_cross(x, y, k - 1)
        }
    }

    /// The allowed lengths found among the first `k` squares: after the
    /// first constraint, every length that ends a placement on a free square;
    /// at the first letter in place, also the number of free squares before it.
    pub open spec fn cond_lengths(&self, x: int, y: int, k: int) -> Seq<u8>
        decreases k,
    {
        if k <= 0 {
            Seq::empty()
        } else if self.occupied(x, y + k - 1) {
            if !self.hit(x, y, k - 1) {
                self.cond_lengths(x, y, k - 1).push(self.free_count(x, y, k - 1) as u8)
            } else {
                self.cond_lengths(x, y, k - 1)
            }
        } else if self.hit(x, y, k) {
            self.cond_lengths(x, y, k - 1).push(k as u8)
        } else {
            self.cond_lengths(x, y, k - 1)
        }
    }

    /// Constraints of a placement starting at (x, y) along the row: none when
    /// the square before is taken.
    pub open spec fn conditions(&self, x: int, y: int) -> (Seq<u8>, Seq<(u8, char)>, Seq<(u8, (Seq<char>, Seq<char>))>) {
        if y > 0 && self.occupied(x, y - 1) {
            (Seq::empty(), Seq::empty(), Seq::empty())
        } else {
            (self.cond_lengths(x, y, 15 - y), self.cond_fixed(x, y, 15 - y), self.cond_cross(x, y, 15 - y))
        }
    }

    /// One character of a scored word at (x, yy): the running word value,
    /// word multiplier and value of the crossing words formed.
    pub open spec fn score_step(&self, c: char, x: int, yy: int, wv: int, wb: int, ot: int) -> Result<(int, int, int), WordError> {
        let t = self.cell(x, yy);
        if c == '_' {
            match t {
                Tile::Played(PlayedTile::LetterTile(l)) => Ok((wv + letter_value(l), wb, ot)),
                Tile::Played(PlayedTile::JokerTile(_)) => Ok((wv, wb, ot)),
                _ => Err(WordError::UnexpectedUnderscore),
            }
        } else if t.spec_is_occupied() {
            Err(WordError::TileOccupied)
        } else {
            match char_value(c) {
                None => Err(WordError::UnknownChar),
                Some(v) => {
                    let lb = letter_bonus(t);
                    let wm = word_bonus(t);
                    if !self.crosses(x, yy) {
                        Ok((wv + lb * v, wb * wm, ot))
                    } else {
                        match str_value(self.above(x, yy) + seq![c] + self.below(x, yy)) {
                            None => Err(WordError::UnknownChar),
                            Some(sv) => Ok((wv + lb * v, wb * wm, ot + wm * sv + (lb - 1) * v)),
                        }
                    }
                },
            }
        }
    }

    pub open spec fn score_state(&self, w: Seq<char>, x: int, y: int, k: int) -> Result<(int, int, int), WordError>
        decreases k,
    {
        if k <= 0 {
            Ok((0, 1, 0))
        } else {
            match self.score_state(w, x, y, k - 1) {
                Err(e) => Err(e),
                Ok((wv, wb, ot)) => self.score_step(w[k - 1], x, y + k - 1, wv, wb, ot),
            }
        }
    }

    proof fn lemma_state_nonneg(&self, w: Seq<char>, x: int, y: int, k: int)
        requires
            self.wf(),
            0 <= x < 15,
            0 <= y,
            0 <= k <= w.len(),
            y + w.len() <= 15,
        ensures
            self.score_state(w, x, y, k) matches Ok((wv, wb, ot)) ==> wv >= 0 && wb >= 1 && ot >= 0,
        decreases k,
    {
        if k > 0 {
            self.lemma_state_nonneg(w, x, y, k - 1);
            self.lemma_cell_wf(x, y + k - 1);
            if let Ok((wv, wb, ot)) = self.score_state(w, x, y, k - 1) {
                let t = self.cell(x, y + k - 1);
                let wm = word_bonus(t);
                assert(wb * wm >= 1) by (nonlinear_arith)
                    requires wb >= 1, wm >= 1;
                if let Some(v) = char_value(w[k - 1]) {
                    let lb = letter_bonus(t);
                    assert(lb * v >= 0 && (lb - 1) * v >= 0) by (nonlinear_arith)
                        requires lb >= 1, v >= 0;
                    if let Some(sv) = str_value(self.above(x, y + k - 1) + seq![w[k - 1]] + self.below(x, y + k - 1)) {
                        assert(wm * sv >= 0) by (nonlinear_arith)
                            requires wm >= 1, sv >= 0;
                    }
                }
            }
        }
    }

    /// Scores are never negative.
    pub proof fn lemma_score_nonneg(&self, w: Seq<char>, x: int, y: int)
        requires
            self.wf(),
            0 <= x < 15,
            0 <= y,
            y + w.len() <= 15,
        ensures
            self.score(w, x, y) matches Ok(t) ==> t >= 0,
    {
        self.lemma_state_nonneg(w, x, y, w.len() as int);
        if let Ok((wv, wb, ot)) = self.score_state(w, x, y, w.len() as int) {
            assert(wv * wb >= 0) by (nonlinear_arith)
                requires wv >= 0, wb >= 1;
        }
    }

    /// Score of word `w` written from (x, y) along the row: `_` marks a letter
    /// already there. The word value times the word multipliers, plus the
    /// crossing words formed.
    pub open spec fn score(&self, w: Seq<char>, x: int, y: int) -> Result<int, WordError> {
        match self.score_state(w, x, y, w.len() as int) {
            Ok((wv, wb, ot)) => Ok(wv * wb + ot),
            Err(e) => Err(e),
        }
    }

    pub(crate) proof fn lemma_run_above_occupied(&self, x: int, y: int, r: int)
        requires
            x - self.run_above(x, y) <= r < x,
        ensures
            self.occupied(r, y),
        decreases x,
    {
        if r < x - 1 {
            self.lemma_run_above_occupied(x - 1, y, r);
        }
    }

    pub(crate) proof fn lemma_run_below_occupied(&self, x: int, y: int, r: int)
        requires
            x < r <= x + self.run_below(x, y),
        ensures
            self.occupied(r, y),
        decreases 15 - x,
    {
        if r > x + 1 {
            self.lemma_run_below_occupied(x + 1, y, r);
        }
    }

    proof fn lemma_score_err(&self, w: Seq<char>, x: int, y: int, i: int, e: WordError)
        requires
            0 <= i <= w.len(),
            self.score_state(w, x, y, i) == Err::<(int, int, int), WordError>(e),
        ensures
            self.score(w, x, y) == Err::<int, WordError>(e),
        decreases w.len() - i,
    {
        if i < w.len() {
            assert(self.score_state(w, x, y, i + 1) == Err::<(int, int, int), WordError>(e));
            self.lemma_score_err(w, x, y, i + 1, e);
        }
    }
}

impl Board {
    /// A board with every square empty.
    pub fn new_empty() -> (r: Board)
        ensures
            r@.wf(),
            !r@.transposed,
            forall|x: int, y: int| 0 <= x < 15 && 0 <= y < 15 ==> r@.cell(x, y) == Tile::Board(BoardTile::EmptyTile),
    {
        let mut tiles: Vec<Tile> = Vec::new();
        let mut i: usize = 0;
        while i < SIZE
            invariant
                i <= SIZE,
                tiles.len() == i,
                forall|k: int| 0 <= k < i ==> tiles@[k] == Tile::Board(BoardTile::EmptyTile),
            decreases SIZE - i,
        {
            tiles.push(Tile::Board(BoardTile::EmptyTile));
            i = i + 1;
        }
        let r = Board { tiles, transposed: false };
        assert forall|x: int, y: int| 0 <= x < 15 && 0 <= y < 15 implies r@.cell(x, y) == Tile::Board(BoardTile::EmptyTile) by {
            assert(0 <= x * 15 + y < 225) by (nonlinear_arith)
                requires 0 <= x < 15, 0 <= y < 15;
        }
        r
    }

    /// The same squares seen with (x, y) swapped or not.
    pub fn oriented(&self, transposed: bool) -> (r: Board)
        requires
            self@.wf(),
        ensures
            r@ == self@.with_orientation(transposed),
    {
        let mut tiles: Vec<Tile> = Vec::new();
        let mut i: usize = 0;
        while i < SIZE
            invariant
                self@.wf(),
                i <= SIZE,
                tiles.len() == i,
                forall|k: int| 0 <= k < i ==> tiles@[k] == self.tiles@[k],
            decreases SIZE - i,
        {
            tiles.push(self.tiles[i]);
            i = i + 1;
        }
        assert(tiles@ =~= self.tiles@);
        Board { tiles, transposed }
    }

    /// The tile at (x, y).
    pub fn at(&self, x: usize, y: usize) -> (r: Tile)
        requires
            self@.wf(),
            x < SIDE,
            y < SIDE,
        ensures
            r == self@.cell(x as int, y as int),
            r.wf(),
    {
        proof {
            self@.lemma_cell_wf(x as int, y as int);
            assert(0 <= x * 15 + y < 225 && 0 <= y * 15 + x < 225) by (nonlinear_arith)
                requires 0 <= x < 15, 0 <= y < 15;
        }
        if self.transposed {
            self.tiles[y * SIDE + x]
        } else {
            self.tiles[x * SIDE + y]
        }
    }

    /// The tile at (x, y), or `None` off the board.
    pub fn at_nopanic(&self, x: usize, y: usize) -> (r: Option<Tile>)
        requires
            self@.wf(),
        ensures
            r == (if x < SIDE && y < SIDE {
                Some(self@.cell(x as int, y as int))
            } else {
                None
            }),
    {
        if x >= SIDE || y >= SIDE {
            return None;
        }
        Some(self.at(x, y))
    }
}

proof fn lemma_tokens_append(a: Seq<char>, b: Seq<char>)
    ensures
        tokens(a + b) == tokens(a) + tokens(b),
    decreases b.len(),
{
    if b.len() == 0 {
        assert(a + b =~= a);
        assert(tokens(a) + tokens(b) =~= tokens(a));
    } else {
        lemma_tokens_append(a, b.drop_last());
        assert((a + b).drop_last() =~= a + b.drop_last());
        assert((a + b).last() == b.last());
        if !is_separator(b.last()) {
            assert(tokens(a) + tokens(b.drop_last()).push(b.last()) =~= (tokens(a) + tokens(
                b.drop_last(),
            )).push(b.last()));
        }
    }
}

proof fn lemma_tile_char(t: Tile)
    requires
        t.wf(),
    ensures
        !is_separator(tile_char(t)),
        token_tile(tile_char(t)) == Some(t),
{
    match t {
        Tile::Played(PlayedTile::JokerTile(c)) => {
            lemma_case_round_trip(c);
        },
        _ => {},
    }
}

proof fn lemma_grid_wf(b: Board)
    requires
        b@.wf(),
    ensures
        forall|k: int| 0 <= k < SIZE ==> (#[trigger] b@.grid()[k]).wf(),
{
    assert forall|k: int| 0 <= k < SIZE implies (#[trigger] b@.grid()[k]).wf() by {
        b@.lemma_cell_wf(k / 15, k % 15);
    }
}

proof fn lemma_serialized_tokens(g: Seq<Tile>, k: int)
    requires
        0 <= k <= g.len(),
        forall|i: int| 0 <= i < g.len() ==> (#[trigger] g[i]).wf(),
    ensures
        tokens(serialized_prefix(g, k)) == Seq::new(k as nat, |i: int| tile_char(g[i])),
    decreases k,
{
    if k > 0 {
        lemma_serialized_tokens(g, k - 1);
        lemma_tile_char(g[k - 1]);
        let c = tile_char(g[k - 1]);
        let tail = seq![c, ' '] + if (k - 1) % 15 == 14 {
            seq!['\n']
        } else {
            Seq::empty()
        };
        lemma_tokens_append(serialized_prefix(g, k - 1), tail);
        assert(serialized_prefix(g, k) == serialized_prefix(g, k - 1) + tail);
        let one = seq![c];
        let two = seq![c, ' '];
        assert(one.drop_last() =~= Seq::<char>::empty());
        assert(one.last() == c);
        assert(tokens(Seq::<char>::empty()) == Seq::<char>::empty());
        assert(tokens(one) == tokens(one.drop_last()).push(c));
        assert(tokens(one) =~= seq![c]);
        assert(two.drop_last() =~= one);
        assert(two.last() == ' ');
        assert(tokens(two) =~= seq![c]);
        if (k - 1) % 15 == 14 {
            assert(tail.drop_last() =~= two);
            assert(tail.last() == '\n');
        } else {
            assert(tail =~= two);
        }
        assert(tokens(tail) =~= seq![c]);
        assert(tokens(serialized_prefix(g, k)) =~= Seq::new(k as nat, |i: int| tile_char(g[i])));
    }
}

/// Reading back the text form of a board gives the same squares.
pub proof fn lemma_round_trip(b: Board)
    requires
        b@.wf(),
    ensures
        deserialized(serialized(b@.grid())) == Ok::<Seq<Tile>, DeserializingError>(b@.grid()),
{
    let g = b@.grid();
    lemma_grid_wf(b);
    lemma_serialized_tokens(g, SIZE as int);
    let t = tokens(serialized(g));
    assert forall|i: int| 0 <= i < t.len() implies (#[trigger] token_tile(t[i])) == Some(g[i]) by {
        lemma_tile_char(g[i]);
    }
    assert(Seq::new(t.len(), |i: int| token_tile(t[i])->0) =~= g);
}

fn tile_to_char(t: Tile) -> (r: char)
    requires
        t.wf(),
    ensures
        r == tile_char(t),
{
    match t {
        Tile::Board(BoardTile::EmptyTile) => '_',
        Tile::Board(BoardTile::LetterBonusTile(n)) => if n == 2 { '2' } else { '3' },
        Tile::Board(BoardTile::WordBonusTile(n)) => if n == 2 { '5' } else { '6' },
        Tile::Played(PlayedTile::LetterTile(c)) => c,
        Tile::Played(PlayedTile::JokerTile(c)) => to_upper(c),
    }
}

fn char_to_tile(c: char) -> (r: Option<Tile>)
    ensures
        r == token_tile(c),
        r matches Some(t) ==> t.wf(),
{
    proof {
        lemma_case_round_trip(c);
    }
    match c {
        '_' => Some(Tile::Board(BoardTile::EmptyTile)),
        '2' => Some(Tile::Board(BoardTile::LetterBonusTile(2))),
        '3' => Some(Tile::Board(BoardTile::LetterBonusTile(3))),
        '5' => Some(Tile::Board(BoardTile::WordBonusTile(2))),
        '6' => Some(Tile::Board(BoardTile::WordBonusTile(3))),
        _ => {
            if 'a' <= c && c <= 'z' {
                Some(Tile::Played(PlayedTile::LetterTile(c)))
            } else if 'A' <= c && c <= 'Z' {
                Some(Tile::Played(PlayedTile::JokerTile(to_lower(c))))
            } else {
                None
            }
        },
    }
}

impl Board {
    /// The text form: rows in order, each square's character followed by a
    /// space, each row followed by a newline.
    pub fn serialize(&self) -> (r: String)
        requires
            self@.wf(),
        ensures
            r@ == serialized(self@.grid()),
    {
        let ghost g = self@.grid();
        let mut msg: Vec<char> = Vec::new();
        let mut x: usize = 0;
        while x < SIDE
            invariant
                self@.wf(),
                g == self@.grid(),
                x <= SIDE,
                msg@ == serialized_prefix(g, 15 * x),
            decreases SIDE - x,
        {
            let mut y: usize = 0;
            while y < SIDE
                invariant
                    self@.wf(),
                    g == self@.grid(),
                    x < SIDE,
                    y <= SIDE,
                    msg@ == serialized_prefix(g, 15 * x + y),
                decreases SIDE - y,
            {
                let t = self.at(x, y);
                let ghost k = 15 * x + y;
                proof {
                    assert(k / 15 == x && k % 15 == y) by (nonlinear_arith)
                        requires k == 15 * x + y, 0 <= y < 15;
                    assert(0 <= k < 225) by (nonlinear_arith)
                        requires k == 15 * x + y, 0 <= y < 15, 0 <= x < 15;
                    assert(g[k] == t);
                }
                msg.push(tile_to_char(t));
                msg.push(' ');
                if y == SIDE - 1 {
                    msg.push('\n');
                }
                proof {
                    let tail = seq![tile_char(g[k]), ' '] + if k % 15 == 14 {
                        seq!['\n']
                    } else {
                        Seq::empty()
                    };
                    assert(serialized_prefix(g, k + 1) == serialized_prefix(g, k) + tail);
                    assert(msg@ =~= serialized_prefix(g, k + 1));
                }
                y = y + 1;
            }
            x = x + 1;
        }
        string_of(&msg)
    }

    /// Reads a board from its text form: separators are skipped, the other
    /// characters are the squares in reading order.
    pub fn deserialize(message: &str) -> (r: Result<Board, DeserializingError>)
        ensures
            match deserialized(message@) {
                Ok(g) => r matches Ok(b) && b@.wf() && !b@.transposed && b@.grid() == g,
                Err(e) => r == Err::<Board, DeserializingError>(e),
            },
    {
        let chars = chars_of(message);
        let mut tiles: Vec<Tile> = Vec::new();
        let mut i: usize = 0;
        while i < chars.len()
            invariant
                chars@ == message@,
                i <= chars.len(),
                tiles.len() == tokens(chars@.subrange(0, i as int)).len(),
                forall|k: int| 0 <= k < tiles.len() ==> Some(#[trigger] tiles@[k]) == token_tile(
                    tokens(chars@.subrange(0, i as int))[k],
                ),
                forall|k: int| 0 <= k < tiles.len() ==> (#[trigger] tiles@[k]).wf(),
            decreases chars.len() - i,
        {
            let c = chars[i];
            let ghost pre = chars@.subrange(0, i as int);
            proof {
                assert(chars@.subrange(0, i + 1).drop_last() =~= pre);
            }
            if !(c == ' ' || c == '\n' || c == '\r' || c == '\t') {
                match char_to_tile(c) {
                    None => {
                        proof {
                            let rest = chars@.subrange(i + 1, chars.len() as int);
                            assert(chars@ =~= chars@.subrange(0, i + 1) + rest);
                            lemma_tokens_append(chars@.subrange(0, i + 1), rest);
                            let t = tokens(message@);
                            let j = tokens(pre).len() as int;
                            assert(t[j] == c);
                            assert(token_tile(t[j]) is None);
                        }
                        return Err(DeserializingError::UnknownSymbol);
                    },
                    Some(t) => {
                        tiles.push(t);
                    },
                }
            }
            i = i + 1;
        }
        proof {
            assert(chars@.subrange(0, chars.len() as int) =~= message@);
            let t = tokens(message@);
            assert forall|k: int| 0 <= k < t.len() implies (#[trigger] token_tile(t[k])) is Some by {
                assert(Some(tiles@[k]) == token_tile(t[k]));
            }
        }
        if tiles.len() != SIZE {
            return Err(DeserializingError::WrongLength);
        }
        let b = Board { tiles, transposed: false };
        proof {
            let t = tokens(message@);
            assert forall|k: int| 0 <= k < SIZE implies #[trigger] b@.grid()[k] == token_tile(t[k])->0 by {
                assert(k == (k / 15) * 15 + k % 15);
                assert(Some(b.tiles@[k]) == token_tile(t[k]));
            }
            assert(b@.grid() =~= Seq::new(t.len(), |i: int| token_tile(t[i])->0));
        }
        Ok(b)
    }
}

/// Reads a board from its text form.
pub fn deserialize(message: String) -> (r: Result<Board, DeserializingError>)
    ensures
        match deserialized(message@) {
            Ok(g) => r matches Ok(b) && b@.wf() && !b@.transposed && b@.grid() == g,
            Err(e) => r == Err::<Board, DeserializingError>(e),
        },
{
    Board::deserialize(message.as_str())
}

/// Each character in lowercase.
pub open spec fn lower_seq(s: Seq<char>) -> Seq<char> {
    Seq::new(s.len(), |i: int| lower(s[i]))
}

pub open spec fn letter_bonus(t: Tile) -> int {
    match t {
        Tile::Board(BoardTile::LetterBonusTile(n)) => n as int,
        _ => 1,
    }
}

pub open spec fn word_bonus(t: Tile) -> int {
    match t {
        Tile::Board(BoardTile::WordBonusTile(n)) => n as int,
        _ => 1,
    }
}

pub open spec fn pow3(n: nat) -> nat
    decreases n,
{
    if n == 0 {
        1
    } else {
        3 * pow3((n - 1) as nat)
    }
}

proof fn lemma_pow3_bound(n: nat)
    requires
        n <= 15,
    ensures
        1 <= pow3(n) <= 14348907,
    decreases n,
{
    if n > 0 {
        lemma_pow3_bound((n - 1) as nat);
        if n == 15 {
            reveal_with_fuel(pow3, 16);
        } else {
            lemma_pow3_mono(n, 15);
            reveal_with_fuel(pow3, 16);
        }
    }
}

proof fn lemma_pow3_mono(a: nat, b: nat)
    requires
        a <= b,
    ensures
        pow3(a) <= pow3(b),
    decreases b,
{
    if a < b {
        lemma_pow3_mono(a, (b - 1) as nat);
    }
}

/// Result of a scoring with its value as an integer.
pub open spec fn score_value(r: Result<u64, WordError>) -> Result<int, WordError> {
    match r {
        Ok(s) => Ok(s as int),
        Err(e) => Err(e),
    }
}

impl Board {
    fn count_above(&self, x: usize, y: usize) -> (r: usize)
        requires
            self@.wf(),
            x < SIDE,
            y < SIDE,
        ensures
            r == self@.run_above(x as int, y as int),
            r <= x,
        decreases x,
    {
        if x == 0 || !self.at(x - 1, y).is_occupied() {
            0
        } else {
            1 + self.count_above(x - 1, y)
        }
    }

    fn count_below(&self, x: usize, y: usize) -> (r: usize)
        requires
            self@.wf(),
            x < SIDE,
            y < SIDE,
        ensures
            r == self@.run_below(x as int, y as int),
            r <= 14 - x,
        decreases SIDE - x,
    {
        if x >= SIDE - 1 || !self.at(x + 1, y).is_occupied() {
            0
        } else {
            1 + self.count_below(x + 1, y)
        }
    }

    fn letter_of(&self, x: usize, y: usize) -> (r: char)
        requires
            self@.wf(),
            x < SIDE,
            y < SIDE,
        ensures
            self@.occupied(x as int, y as int) ==> r == self@.letter(x as int, y as int),
    {
        match self.at(x, y).letter() {
            Some(c) => c,
            None => '_',
        }
    }

    /// The letters right above (x, y), top to bottom.
    fn get_above(&self, x: usize, y: usize) -> (r: Vec<char>)
        requires
            self@.wf(),
            x < SIDE,
            y < SIDE,
        ensures
            r@ == self@.above(x as int, y as int),
            r.len() <= x,
    {
        let n = self.count_above(x, y);
        let mut r: Vec<char> = Vec::new();
        let mut i: usize = 0;
        while i < n
            invariant
                self@.wf(),
                x < SIDE,
                y < SIDE,
                n == self@.run_above(x as int, y as int),
                n <= x,
                i <= n,
                r@ == self@.above(x as int, y as int).subrange(0, i as int),
            decreases n - i,
        {
            proof {
                self@.lemma_run_above_occupied(x as int, y as int, (x - n + i) as int);
            }
            r.push(self.letter_of(x - n + i, y));
            i = i + 1;
        }
        assert(r@ =~= self@.above(x as int, y as int));
        r
    }

    /// The letters right below (x, y), top to bottom.
    fn get_below(&self, x: usize, y: usize) -> (r: Vec<char>)
        requires
            self@.wf(),
            x < SIDE,
            y < SIDE,
        ensures
            r@ == self@.below(x as int, y as int),
            r.len() <= 14 - x,
    {
        let n = self.count_below(x, y);
        let mut r: Vec<char> = Vec::new();
        let mut i: usize = 0;
        while i < n
            invariant
                self@.wf(),
                x < SIDE,
                y < SIDE,
                n == self@.run_below(x as int, y as int),
                n <= 14 - x,
                i <= n,
                r@ == self@.below(x as int, y as int).subrange(0, i as int),
            decreases n - i,
        {
            proof {
                self@.lemma_run_below_occupied(x as int, y as int, (x + 1 + i) as int);
            }
            r.push(self.letter_of(x + 1 + i, y));
            i = i + 1;
        }
        assert(r@ =~= self@.below(x as int, y as int));
        r
    }
}

fn lowercase(v: &Vec<char>) -> (r: Vec<char>)
    ensures
        r@ == lower_seq(v@),
{
    let mut r: Vec<char> = Vec::new();
    let mut i: usize = 0;
    while i < v.len()
        invariant
            i <= v.len(),
            r@ == lower_seq(v@).subrange(0, i as int),
        decreases v.len() - i,
    {
        r.push(to_lower(v[i]));
        i = i + 1;
    }
    assert(r@ =~= lower_seq(v@));
    r
}

impl Board {
    /// Fills `conditions` with the constraints of a placement whose first
    /// square is (x, y), along the row.
    pub fn get_conditions(&self, x: usize, y: usize, conditions: &mut PotentialWord)
        requires
            self@.wf(),
            x < SIDE,
            y < SIDE,
        ensures
            final(conditions)@ == self@.conditions(x as int, y as int),
            y > 0 && self@.occupied(x as int, y - 1) ==> final(conditions)@ == (
                Seq::<u8>::empty(),
                Seq::<(u8, char)>::empty(),
                Seq::<(u8, (Seq<char>, Seq<char>))>::empty(),
            ),
    {
        conditions.reset();
        if y > 0 && self.at(x, y - 1).is_occupied() {
            return;
        }
        let mut nb_letters: u8 = 0;
        let mut at_least_one_constraint = false;
        let mut relative_y: usize = 0;
        while relative_y < SIDE - y
            invariant
                self@.wf(),
                x < SIDE,
                y < SIDE,
                relative_y <= SIDE - y,
                nb_letters as int == self@.free_count(x as int, y as int, relative_y as int),
                nb_letters <= relative_y,
                at_least_one_constraint == self@.hit(x as int, y as int, relative_y as int),
                conditions@ == (
                    self@.cond_lengths(x as int, y as int, relative_y as int),
                    self@.cond_fixed(x as int, y as int, relative_y as int),
                    self@.cond_cross(x as int, y as int, relative_y as int),
                ),
            decreases SIDE - y - relative_y,
        {
            let absolute_y = y + relative_y;
            let ghost k = relative_y as int + 1;
            let tile = self.at(x, absolute_y);
            match tile.letter() {
                Some(c) => {
                    if !at_least_one_constraint {
                        conditions.add_nb_letters(nb_letters);
                    }
                    at_least_one_constraint = true;
                    conditions.add_letter(to_lower(c), relative_y as u8);
                },
                None => {
                    let above = lowercase(&self.get_above(x, absolute_y));
                    let below = lowercase(&self.get_below(x, absolute_y));
                    match WordToFill::from_chars(&above, &below) {
                        Err(_) => {},
                        Ok(word) => {
                            at_least_one_constraint = true;
                            conditions.add_word(word, relative_y as u8);
                        },
                    }
                    nb_letters = nb_letters + 1;
                    if at_least_one_constraint {
                        conditions.add_nb_letters((relative_y + 1) as u8);
                    }
                },
            }
            relative_y = relative_y + 1;
        }
    }

    /// One character of a scored word, at (x, yy).
    fn score_char(&self, c: char, x: usize, yy: usize, i: usize, wv: u64, wb: u64, ot: u64) -> (r: Result<(u64, u64, u64), WordError>)
        requires
            self@.wf(),
            x < SIDE,
            yy < SIDE,
            i < 15,
            wv <= 30 * i,
            1 <= wb <= pow3(i as nat),
            ot <= 470 * i,
        ensures
            match self@.score_step(c, x as int, yy as int, wv as int, wb as int, ot as int) {
                Ok((a, b, d)) => r matches Ok((a2, b2, d2)) && a == a2 && b == b2 && d == d2
                    && a2 <= 30 * (i + 1) && 1 <= b2 <= pow3((i + 1) as nat) && d2 <= 470 * (i + 1),
                Err(e) => r == Err::<(u64, u64, u64), WordError>(e),
            },
    {
        let tile = self.at(x, yy);
        proof {
            lemma_pow3_bound(i as nat);
            lemma_pow3_bound((i + 1) as nat);
        }
        if c == '_' {
            match tile {
                Tile::Played(PlayedTile::LetterTile(l)) => {
                    match get_value(l) {
                        Ok(v) => Ok((wv + v as u64, wb, ot)),
                        Err(_) => Err(WordError::UnknownChar),
                    }
                },
                Tile::Played(PlayedTile::JokerTile(_)) => Ok((wv, wb, ot)),
                _ => Err(WordError::UnexpectedUnderscore),
            }
        } else {
            let (local_letter_bonus, local_word_bonus): (u64, u64) = match tile {
                Tile::Played(_) => {
                    return Err(WordError::TileOccupied);
                },
                Tile::Board(BoardTile::EmptyTile) => (1, 1),
                Tile::Board(BoardTile::LetterBonusTile(n)) => (n as u64, 1),
                Tile::Board(BoardTile::WordBonusTile(n)) => (1, n as u64),
            };
            let v: u64 = match get_value(c) {
                Ok(v) => v as u64,
                Err(_) => {
                    return Err(WordError::UnknownChar);
                },
            };
            proof {
                assert(local_letter_bonus * v <= 30) by (nonlinear_arith)
                    requires local_letter_bonus <= 3, v <= 10;
                assert(wb * local_word_bonus <= pow3((i + 1) as nat)) by (nonlinear_arith)
                    requires
                        wb <= pow3(i as nat),
                        local_word_bonus <= 3,
                        pow3((i + 1) as nat) == 3 * pow3(i as nat);
                assert(wb * local_word_bonus >= 1) by (nonlinear_arith)
                    requires wb >= 1, local_word_bonus >= 1;
            }
            let wv2 = wv + local_letter_bonus * v;
            let wb2 = wb * local_word_bonus;
            let above = self.get_above(x, yy);
            let below = self.get_below(x, yy);
            if above.len() == 0 && below.len() == 0 {
                return Ok((wv2, wb2, ot));
            }
            let ghost above_g = above@;
            let mut formed = above;
            formed.push(c);
            let mut k: usize = 0;
            let ghost start = formed@;
            while k < below.len()
                invariant
                    k <= below.len(),
                    formed@ == start + below@.subrange(0, k as int),
                decreases below.len() - k,
            {
                formed.push(below[k]);
                k = k + 1;
            }
            proof {
                assert(below@.subrange(0, below.len() as int) =~= below@);
                assert(formed@ =~= above_g + seq![c] + below@);
                assert(self@.crosses(x as int, yy as int));
            }
            let sv: u64 = match get_str_value(&formed) {
                Ok(sv) => sv as u64,
                Err(_) => {
                    return Err(WordError::UnknownChar);
                },
            };
            proof {
                lemma_str_value_bound(formed@);
                assert(local_word_bonus * sv + (local_letter_bonus - 1) * v <= 470) by (nonlinear_arith)
                    requires local_word_bonus <= 3, sv <= 150, 1 <= local_letter_bonus <= 3, v <= 10;
            }
            Ok((wv2, wb2, ot + local_word_bonus * sv + (local_letter_bonus - 1) * v))
        }
    }

    /// Scores `word` written from (x, y) along the row, where `_` marks a
    /// letter already on the board and an uppercase letter a joker.
    pub fn get_score(&self, word: &str, x: usize, y: usize) -> (r: Result<u64, WordError>)
        requires
            self@.wf(),
            x < SIDE,
            y + word@.len() <= SIDE,
        ensures
            score_value(r) == self@.score(word@, x as int, y as int),
    {
        let w = chars_of(word);
        let mut word_bonus_total: u64 = 1;
        let mut word_value: u64 = 0;
        let mut other_words_formed: u64 = 0;
        let mut i: usize = 0;
        while i < w.len()
            invariant
                self@.wf(),
                w@ == word@,
                x < SIDE,
                y + w.len() <= SIDE,
                i <= w.len(),
                self@.score_state(w@, x as int, y as int, i as int) == Ok::<(int, int, int), WordError>(
                    (word_value as int, word_bonus_total as int, other_words_formed as int),
                ),
                word_value <= 30 * i,
                1 <= word_bonus_total <= pow3(i as nat),
                other_words_formed <= 470 * i,
            decreases w.len() - i,
        {
            match self.score_char(w[i], x, y + i, i, word_value, word_bonus_total, other_words_formed) {
                Ok((a, b, d)) => {
                    word_value = a;
                    word_bonus_total = b;
                    other_words_formed = d;
                },
                Err(e) => {
                    proof {
                        self@.lemma_score_err(w@, x as int, y as int, i + 1, e);
                    }
                    return Err(e);
                },
            }
            i = i + 1;
        }
        proof {
            lemma_pow3_bound(w.len() as nat);
            assert(word_value * word_bonus_total <= 450 * 14348907) by (nonlinear_arith)
                requires word_value <= 450, word_bonus_total <= 14348907;
        }
        Ok(word_value * word_bonus_total + other_words_formed)
    }
}

} // verus!
