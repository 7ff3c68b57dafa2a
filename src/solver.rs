use vstd::prelude::*;
use crate::anagram::{AnagramQuery, is_rack, word_lt, rack_uses, lemma_uses_append, lemma_uses_push, lengths_allow};
use crate::constraints::{last_fixed, has_u8};
use crate::tile::{lower, lemma_case_round_trip};
use crate::values::{char_value, str_value, lemma_str_value_some};
use crate::board::{Board, BoardView, WordError, SIDE};
use crate::constraints::PotentialWord;
use crate::str_tree::StrTree;
use crate::transposition::{NotTransposed, Transposed, TransposedBool, TransposedState};

verus! {

/// The best play found: its direction, the square of its first letter on
/// the untransposed board, the word as placed (`_` where a letter was
/// already there, uppercase for a joker), and its score.
#[derive(Debug)]
pub struct BestWord {
    pub vertical: bool,
    pub coord: (usize, usize),
    pub word: String,
    pub score: u64,
}

impl PartialEq for BestWord {
    fn eq(&self, other: &BestWord) -> (r: bool) {
        self.vertical == other.vertical && self.coord.0 == other.coord.0 && self.coord.1 == other.coord.1 && self.word == other.word
            && self.score == other.score
    }
}

impl vstd::std_specs::cmp::PartialEqSpecImpl for BestWord {
    open spec fn obeys_eq_spec() -> bool {
        true
    }

    open spec fn eq_spec(&self, other: &BestWord) -> bool {
        self.vertical == other.vertical && self.coord == other.coord && self.word@ == other.word@
            && self.score == other.score
    }
}

/// The anagram search made at anchor (x, y) of a board seen as it is.
#[verifier::opaque]
pub open spec fn query_at(b: BoardView, dict: Set<Seq<char>>, rack: Seq<char>, x: int, y: int) -> AnagramQuery {
    let c = b.conditions(x, y);
    AnagramQuery { dict, rack, lengths: Some(c.0), fixed: Some(c.1), cross: Some(c.2) }
}

/// The words weighed at anchor (x, y): the placements found there.
pub open spec fn candidate_at(b: BoardView, dict: Set<Seq<char>>, rack: Seq<char>, x: int, y: int, w: Seq<char>) -> bool {
    &&& 0 <= x < 15
    &&& 0 <= y < 15
    &&& query_at(b, dict, rack, x, y).is_placement(w)
}

/// A candidate of the board seen in orientation `v` (vertical when set).
pub open spec fn is_candidate(b: BoardView, dict: Set<Seq<char>>, rack: Seq<char>, v: bool, x: int, y: int, w: Seq<char>) -> bool {
    candidate_at(b.with_orientation(v), dict, rack, x, y, w)
}

pub open spec fn candidate_score(b: BoardView, v: bool, x: int, y: int, w: Seq<char>) -> Result<int, WordError> {
    b.with_orientation(v).score(w, x, y)
}

/// Position of an anchor in the order of the scan: horizontal plays first,
/// then vertical ones, rows in order.
pub open spec fn anchor_rank(v: bool, x: int, y: int) -> int {
    (if v {
        225int
    } else {
        0int
    }) + 15 * x + y
}

/// Every candidate at the first `n` anchors scores at most `s`, without error.
#[verifier::opaque]
pub open spec fn bounded_before(b: BoardView, dict: Set<Seq<char>>, rack: Seq<char>, n: int, s: int) -> bool {
    forall|v: bool, x: int, y: int, w: Seq<char>|
        anchor_rank(v, x, y) < n && #[trigger] is_candidate(b, dict, rack, v, x, y, w) ==> (candidate_score(
            b,
            v,
            x,
            y,
            w,
        ) matches Ok(t) && t <= s)
}

/// Every candidate at the first `n` anchors scores less than `s`.
#[verifier::opaque]
pub open spec fn below_before(b: BoardView, dict: Set<Seq<char>>, rack: Seq<char>, n: int, s: int) -> bool {
    forall|v: bool, x: int, y: int, w: Seq<char>|
        anchor_rank(v, x, y) < n && #[trigger] is_candidate(b, dict, rack, v, x, y, w) ==> (candidate_score(
            b,
            v,
            x,
            y,
            w,
        ) matches Ok(t) && t < s)
}

/// Among the candidates at anchor (x, y) that score `s`, `w0` comes first
/// in the order the anagram search gives them: ascending word order.
pub open spec fn first_at(b: BoardView, dict: Set<Seq<char>>, rack: Seq<char>, x: int, y: int, w0: Seq<char>, s: int) -> bool {
    forall|w: Seq<char>|
        candidate_at(b, dict, rack, x, y, w) && b.score(w, x, y) == Ok::<int, WordError>(s) ==> w == w0
            || word_lt(w0, w)
}

/// The anchor of a play, in the orientation it was found in.
pub open spec fn scan_coord(bw: BestWord) -> (int, int) {
    if bw.vertical {
        (bw.coord.1 as int, bw.coord.0 as int)
    } else {
        (bw.coord.0 as int, bw.coord.1 as int)
    }
}

/// A play that is a candidate and scores what it says.
pub open spec fn is_found(b: BoardView, dict: Set<Seq<char>>, rack: Seq<char>, bw: BestWord) -> bool {
    let (x, y) = scan_coord(bw);
    &&& bw.score > 0
    &&& is_candidate(b, dict, rack, bw.vertical, x, y, bw.word@)
    &&& candidate_score(b, bw.vertical, x, y, bw.word@) == Ok::<int, WordError>(bw.score as int)
}

spec fn best_inv(b: BoardView, dict: Set<Seq<char>>, rack: Seq<char>, best: Option<BestWord>, n: int) -> bool {
    match best {
        None => bounded_before(b, dict, rack, n, 0),
        Some(bw) => is_found(b, dict, rack, bw) && bounded_before(b, dict, rack, n, bw.score as int)
            && anchor_rank(bw.vertical, scan_coord(bw).0, scan_coord(bw).1) < n
            && below_before(b, dict, rack, anchor_rank(bw.vertical, scan_coord(bw).0, scan_coord(bw).1), bw.score as int)
            && first_at(b.with_orientation(bw.vertical), dict, rack, scan_coord(bw).0, scan_coord(bw).1, bw.word@, bw.score as int),
    }
}

proof fn lemma_bounded_below(b: BoardView, dict: Set<Seq<char>>, rack: Seq<char>, n: int, s1: int, s2: int)
    requires
        bounded_before(b, dict, rack, n, s1),
        s1 < s2,
    ensures
        below_before(b, dict, rack, n, s2),
{
    reveal(bounded_before);
    reveal(below_before);
}

proof fn lemma_free_count_mono(b: BoardView, x: int, y: int, j: int, k: int)
    requires
        0 <= j <= k,
    ensures
        b.free_count(x, y, j) <= b.free_count(x, y, k) <= k,
    decreases k,
{
    if k > 0 {
        if j < k {
            lemma_free_count_mono(b, x, y, j, k - 1);
        } else {
            lemma_free_count_mono(b, x, y, k - 1, k - 1);
        }
    }
}

/// The letters in place are exactly on the taken squares of the row.
proof fn lemma_fixed_on_taken(b: BoardView, x: int, y: int, k: int, i: int)
    requires
        0 <= k <= 15,
    ensures
        (last_fixed(b.cond_fixed(x, y, k), i) is Some) == (0 <= i < k && b.occupied(x, y + i)),
    decreases k,
{
    if k > 0 {
        lemma_fixed_on_taken(b, x, y, k - 1, i);
        let prev = b.cond_fixed(x, y, k - 1);
        if b.occupied(x, y + k - 1) {
            let e = ((k - 1) as u8, lower(b.letter(x, y + k - 1)));
            assert(b.cond_fixed(x, y, k).drop_last() =~= prev);
            assert(b.cond_fixed(x, y, k).last() == e);
        }
    }
}

/// Every allowed length fits in the squares scanned.
proof fn lemma_lengths_bounded(b: BoardView, x: int, y: int, k: int, n: int)
    requires
        0 <= k <= 15,
        has_u8(b.cond_lengths(x, y, k), n),
    ensures
        n <= k,
    decreases k,
{
    let l = b.cond_lengths(x, y, k);
    let j = choose|j: int| 0 <= j < l.len() && l[j] as int == n;
    if k > 0 {
        let prev = b.cond_lengths(x, y, k - 1);
        lemma_free_count_mono(b, x, y, k - 1, k - 1);
        if j < prev.len() {
            assert(l[j] == prev[j]);
            assert(has_u8(prev, n));
            lemma_lengths_bounded(b, x, y, k - 1, n);
        }
    }
}

/// A placement found at anchor (x, y) fits on the board.
proof fn lemma_placement_fits(b: BoardView, dict: Set<Seq<char>>, rack: Seq<char>, x: int, y: int, p: Seq<char>)
    requires
        0 <= x < 15,
        0 <= y < 15,
        query_at(b, dict, rack, x, y).is_placement(p),
    ensures
        y + p.len() <= 15,
{
    reveal(query_at);
    let q = query_at(b, dict, rack, x, y);
    if y > 0 && b.occupied(x, y - 1) {
        assert(!has_u8(Seq::<u8>::empty(), p.len() as int));
    } else {
        lemma_lengths_bounded(b, x, y, 15 - y, p.len() as int);
    }
}


/// Letters on a well-formed board all have a value.
proof fn lemma_letter_value(b: BoardView, x: int, y: int)
    requires
        b.wf(),
        0 <= x < 15,
        0 <= y < 15,
        b.occupied(x, y),
    ensures
        char_value(b.letter(x, y)) is Some,
{
    b.lemma_cell_wf(x, y);
    match b.cell(x, y) {
        crate::tile::Tile::Played(crate::tile::PlayedTile::JokerTile(c)) => {
            lemma_case_round_trip(c);
        },
        _ => {},
    }
}

/// The crossing word through a free square has a value for any letter.
proof fn lemma_crossing_value(b: BoardView, x: int, y: int, c: char)
    requires
        b.wf(),
        0 <= x < 15,
        0 <= y < 15,
        char_value(c) is Some,
    ensures
        str_value(b.above(x, y) + seq![c] + b.below(x, y)) is Some,
{
    let a = b.above(x, y);
    let d = b.below(x, y);
    let s = a + seq![c] + d;
    assert forall|i: int| 0 <= i < s.len() implies (#[trigger] char_value(s[i])) is Some by {
        let n = b.run_above(x, y) as int;
        if i < a.len() {
            b.lemma_run_above_occupied(x, y, x - n + i);
            lemma_run_above_le(b, x, y);
            lemma_letter_value(b, x - n + i, y);
        } else if i > a.len() {
            let j = i - a.len() - 1;
            b.lemma_run_below_occupied(x, y, x + 1 + j);
            lemma_run_below_le(b, x, y);
            lemma_letter_value(b, x + 1 + j, y);
        }
    }
    lemma_str_value_some(s);
}

proof fn lemma_run_above_le(b: BoardView, x: int, y: int)
    ensures
        b.run_above(x, y) <= if x > 0 { x } else { 0 },
    decreases x,
{
    if x > 0 {
        lemma_run_above_le(b, x - 1, y);
    }
}

proof fn lemma_run_below_le(b: BoardView, x: int, y: int)
    requires
        0 <= x < 15,
    ensures
        x + b.run_below(x, y) <= 14,
    decreases 15 - x,
{
    if x < 14 {
        lemma_run_below_le(b, x + 1, y);
    }
}

/// Scoring a candidate never fails.
proof fn lemma_candidate_scores(b: BoardView, dict: Set<Seq<char>>, rack: Seq<char>, x: int, y: int, w: Seq<char>)
    requires
        b.wf(),
        candidate_at(b, dict, rack, x, y, w),
    ensures
        b.score(w, x, y) is Ok,
{
    lemma_placement_fits(b, dict, rack, x, y, w);
    lemma_state_ok(b, dict, rack, x, y, w, w.len() as int);
}

proof fn lemma_state_ok(b: BoardView, dict: Set<Seq<char>>, rack: Seq<char>, x: int, y: int, w: Seq<char>, k: int)
    requires
        b.wf(),
        candidate_at(b, dict, rack, x, y, w),
        y + w.len() <= 15,
        0 <= k <= w.len(),
    ensures
        b.score_state(w, x, y, k) is Ok,
    decreases k,
{
    if k > 0 {
        lemma_state_ok(b, dict, rack, x, y, w, k - 1);
        reveal(query_at);
        let q = query_at(b, dict, rack, x, y);
        let i = k - 1;
        assert(q.char_ok(w[i], i));
        let blocked = y > 0 && b.occupied(x, y - 1);
        if !blocked {
            lemma_fixed_on_taken(b, x, y, 15 - y, i);
            b.lemma_cell_wf(x, y + i);
            if w[i] != '_' {
                lemma_crossing_value(b, x, y + i, w[i]);
            }
        } else {
            assert(!has_u8(Seq::<u8>::empty(), rack_uses(w).len() as int));
        }
    }
}

/// The best-scoring word at anchor (x, y) of board `b` as it is seen.
fn best_at(
    letter_set: &str,
    b: &Board,
    dict: &StrTree,
    x: usize,
    y: usize,
    pw: &mut PotentialWord,
) -> (r: Result<Option<(String, u64)>, WordError>)
    requires
        b@.wf(),
        dict.wf(),
        is_rack(letter_set@),
        x < SIDE,
        y < SIDE,
    ensures
        match r {
            Err(e) => exists|w: Seq<char>|
                candidate_at(b@, dict@, letter_set@, x as int, y as int, w) && b@.score(w, x as int, y as int)
                    == Err::<int, WordError>(e),
            Ok(None) => forall|w: Seq<char>|
                candidate_at(b@, dict@, letter_set@, x as int, y as int, w) ==> b@.score(w, x as int, y as int)
                    == Ok::<int, WordError>(0),
            Ok(Some((word, s))) => s > 0 && candidate_at(b@, dict@, letter_set@, x as int, y as int, word@)
                && b@.score(word@, x as int, y as int) == Ok::<int, WordError>(s as int) && forall|w: Seq<char>|
                candidate_at(b@, dict@, letter_set@, x as int, y as int, w) ==> (b@.score(w, x as int, y as int) matches Ok(t)
                    && t <= s) && first_at(b@, dict@, letter_set@, x as int, y as int, word@, s as int),
        },
{
    b.get_conditions(x, y, pw);
    let words = dict.get_anagrams(
        letter_set,
        pw.get_constraint_nb_letters(),
        pw.get_constraint_letters(),
        pw.get_constraint_words(),
    );
    let ghost q = query_at(b@, dict@, letter_set@, x as int, y as int);
    proof {
        reveal(query_at);
        assert(forall|p: Seq<char>|
            (exists|k: int| 0 <= k < words.len() && #[trigger] words@[k]@ == p) == q.is_placement(p));
    }
    proof {
        assert forall|j: int| 0 <= j < words.len() implies y + (#[trigger] words@[j])@.len() <= 15 by {
            assert(q.is_placement(words@[j]@));
            lemma_placement_fits(b@, dict@, letter_set@, x as int, y as int, words@[j]@);
        }
    }
    match best_word_among(b, &words, x, y) {
        Err(e) => {
            proof {
                let i = choose|i: int|
                    0 <= i < words.len() && b@.score(#[trigger] words@[i]@, x as int, y as int) == Err::<int, WordError>(e);
                assert(q.is_placement(words@[i]@));
            }
            Err(e)
        },
        Ok(None) => {
            proof {
                assert forall|w: Seq<char>| candidate_at(b@, dict@, letter_set@, x as int, y as int, w) implies b@.score(w, x as int, y as int)
                    == Ok::<int, WordError>(0) by {
                    let j = choose|j: int| 0 <= j < words.len() && #[trigger] words@[j]@ == w;
                }
            }
            Ok(None)
        },
        Ok(Some((i, s))) => {
            proof {
                assert(q.is_placement(words@[i as int]@));
                assert forall|w: Seq<char>| candidate_at(b@, dict@, letter_set@, x as int, y as int, w) implies (b@.score(w, x as int, y as int) matches Ok(t)
                    && t <= s) by {
                    let j = choose|j: int| 0 <= j < words.len() && #[trigger] words@[j]@ == w;
                }
                assert forall|w: Seq<char>|
                    candidate_at(b@, dict@, letter_set@, x as int, y as int, w) && b@.score(w, x as int, y as int)
                        == Ok::<int, WordError>(s as int) implies w == words@[i as int]@ || word_lt(words@[i as int]@, w) by {
                    let j = choose|j: int| 0 <= j < words.len() && #[trigger] words@[j]@ == w;
                    if j < i {
                        assert(b@.score(words@[j]@, x as int, y as int) matches Ok(t) && t < s);
                    }
                }
            }
            Ok(Some((words[i].clone(), s)))
        },
    }
}

/// Picks, among `words` written from (x, y) along the row, the first one
/// that reaches the highest score: a later word replaces it only when it
/// scores more. `None` when every word scores nothing; the first scoring
/// error otherwise stops the search.
pub fn best_word_among(b: &Board, words: &Vec<String>, x: usize, y: usize) -> (r: Result<Option<(usize, u64)>, WordError>)
    requires
        b@.wf(),
        x < SIDE,
        y < SIDE,
        forall|j: int| 0 <= j < words.len() ==> y + (#[trigger] words@[j])@.len() <= 15,
    ensures
        match r {
            Err(e) => exists|i: int|
                0 <= i < words.len() && b@.score(#[trigger] words@[i]@, x as int, y as int) == Err::<int, WordError>(e)
                    && forall|j: int| 0 <= j < i ==> b@.score(#[trigger] words@[j]@, x as int, y as int) is Ok,
            Ok(None) => forall|j: int|
                0 <= j < words.len() ==> b@.score(#[trigger] words@[j]@, x as int, y as int) == Ok::<int, WordError>(0),
            Ok(Some((i, s))) => {
                &&& i < words.len()
                &&& s > 0
                &&& b@.score(words@[i as int]@, x as int, y as int) == Ok::<int, WordError>(s as int)
                &&& forall|j: int| 0 <= j < i ==> (b@.score(#[trigger] words@[j]@, x as int, y as int) matches Ok(t) && t < s)
                &&& forall|j: int| 0 <= j < words.len() ==> (b@.score(#[trigger] words@[j]@, x as int, y as int) matches Ok(t) && t <= s)
            },
        },
{
    let mut best: Option<usize> = None;
    let mut best_score: u64 = 0;
    let mut k: usize = 0;
    while k < words.len()
        invariant
            b@.wf(),
            x < SIDE,
            y < SIDE,
            forall|j: int| 0 <= j < words.len() ==> y + (#[trigger] words@[j])@.len() <= 15,
            k <= words.len(),
            forall|j: int| 0 <= j < k ==> (b@.score(#[trigger] words@[j]@, x as int, y as int) matches Ok(t)
                && t <= best_score),
            match best {
                None => best_score == 0,
                Some(i) => i < k && best_score > 0 && b@.score(words@[i as int]@, x as int, y as int)
                    == Ok::<int, WordError>(best_score as int) && forall|j: int| 0 <= j < i ==> (b@.score(
                    #[trigger] words@[j]@,
                    x as int,
                    y as int,
                ) matches Ok(t) && t < best_score),
            },
        decreases words.len() - k,
    {
        let w = &words[k];
        let s = match b.get_score(w.as_str(), x, y) {
            Ok(s) => s,
            Err(e) => {
                return Err(e);
            },
        };
        if s > best_score {
            best_score = s;
            best = Some(k);
        }
        k = k + 1;
    }
    match best {
        None => {
            proof {
                assert forall|j: int| 0 <= j < words.len() implies b@.score(#[trigger] words@[j]@, x as int, y as int)
                    == Ok::<int, WordError>(0) by {
                    b@.lemma_score_nonneg(words@[j]@, x as int, y as int);
                }
            }
            Ok(None)
        },
        Some(i) => Ok(Some((i, best_score))),
    }
}

proof fn lemma_rank_unique(v1: bool, x1: int, y1: int, v2: bool, x2: int, y2: int)
    requires
        0 <= x1 < 15 && 0 <= y1 < 15,
        0 <= x2 < 15 && 0 <= y2 < 15,
        anchor_rank(v1, x1, y1) == anchor_rank(v2, x2, y2),
    ensures
        v1 == v2 && x1 == x2 && y1 == y2,
{
}

proof fn lemma_bounded_mono(b: BoardView, dict: Set<Seq<char>>, rack: Seq<char>, n: int, s1: int, s2: int)
    requires
        bounded_before(b, dict, rack, n, s1),
        s1 <= s2,
    ensures
        bounded_before(b, dict, rack, n, s2),
{
    reveal(bounded_before);
}

/// Bounds at the first `n` anchors and at anchor `n` itself give bounds
/// at the first `n + 1`.
proof fn lemma_bounded_next(
    board: BoardView,
    dict: Set<Seq<char>>,
    rack: Seq<char>,
    v: bool,
    x: int,
    y: int,
    s: int,
)
    requires
        0 <= x < 15,
        0 <= y < 15,
        bounded_before(board, dict, rack, anchor_rank(v, x, y), s),
        forall|w: Seq<char>|
            candidate_at(board.with_orientation(v), dict, rack, x, y, w) ==> (board.with_orientation(v).score(w, x, y) matches Ok(t)
                && t <= s),
    ensures
        bounded_before(board, dict, rack, anchor_rank(v, x, y) + 1, s),
{
    reveal(bounded_before);
    assert forall|v2: bool, x2: int, y2: int, w: Seq<char>|
        anchor_rank(v2, x2, y2) < anchor_rank(v, x, y) + 1 && #[trigger] is_candidate(board, dict, rack, v2, x2, y2, w)
        implies (candidate_score(board, v2, x2, y2, w) matches Ok(t) && t <= s) by {
        if anchor_rank(v2, x2, y2) == anchor_rank(v, x, y) {
            lemma_rank_unique(v2, x2, y2, v, x, y);
        }
    }
}

/// Weighs the plays at anchor (x, y) of the board in orientation `T`.
fn visit<T: TransposedState + TransposedBool>(
    letter_set: &str,
    board: &Board,
    b: &Board,
    dict: &StrTree,
    x: usize,
    y: usize,
    pw: &mut PotentialWord,
    best: &mut Option<BestWord>,
) -> (r: Result<(), WordError>)
    requires
        board@.wf(),
        dict.wf(),
        is_rack(letter_set@),
        b@ == board@.with_orientation(T::swaps()),
        x < SIDE,
        y < SIDE,
        best_inv(board@, dict@, letter_set@, *old(best), anchor_rank(T::swaps(), x as int, y as int)),
    ensures
        match r {
            Ok(()) => best_inv(board@, dict@, letter_set@, *final(best), anchor_rank(T::swaps(), x as int, y as int) + 1),
            Err(e) => exists|v: bool, x: int, y: int, w: Seq<char>|
                is_candidate(board@, dict@, letter_set@, v, x, y, w) && candidate_score(board@, v, x, y, w)
                    == Err::<int, WordError>(e),
        },
{
    let v = T::get_transposition_as_orientation();
    let ghost n = anchor_rank(v, x as int, y as int);
    let ghost old_best = *best;
    proof {
        assert(b@.wf());
    }
    match best_at(letter_set, b, dict, x, y, pw) {
        Err(e) => {
            proof {
                let w = choose|w: Seq<char>|
                    candidate_at(b@, dict@, letter_set@, x as int, y as int, w) && b@.score(w, x as int, y as int)
                        == Err::<int, WordError>(e);
                assert(is_candidate(board@, dict@, letter_set@, v, x as int, y as int, w)
                    && candidate_score(board@, v, x as int, y as int, w) == Err::<int, WordError>(e));
            }
            return Err(e);
        },
        Ok(None) => {
            proof {
                let s = match old_best {
                    None => 0int,
                    Some(bw) => bw.score as int,
                };
                lemma_bounded_next(board@, dict@, letter_set@, v, x as int, y as int, s);
            }
        },
        Ok(Some((word, score))) => {
            let better = match best {
                None => true,
                Some(bw) => bw.score < score,
            };
            if better {
                let coord = T::transposed_coord(x, y);
                let ghost wv = word@;
                *best = Some(BestWord { vertical: v, coord, word, score });
                proof {
                    let s = score as int;
                    match old_best {
                        None => {
                            lemma_bounded_mono(board@, dict@, letter_set@, n, 0, s);
                            lemma_bounded_below(board@, dict@, letter_set@, n, 0, s);
                        },
                        Some(bw) => {
                            lemma_bounded_mono(board@, dict@, letter_set@, n, bw.score as int, s);
                            lemma_bounded_below(board@, dict@, letter_set@, n, bw.score as int, s);
                        },
                    }
                    lemma_bounded_next(board@, dict@, letter_set@, v, x as int, y as int, s);
                    let nb = best->0;
                    assert(scan_coord(nb) == (x as int, y as int));
                    assert(is_candidate(board@, dict@, letter_set@, v, x as int, y as int, wv));
                }
            } else {
                proof {
                    let bw = old_best->0;
                    lemma_bounded_next(board@, dict@, letter_set@, v, x as int, y as int, bw.score as int);
                }
            }
        },
    }
    Ok(())
}

/// Scans every anchor of the board in orientation `T`, keeping in `best`
/// the first play of highest score.
fn scan<T: TransposedState + TransposedBool>(
    letter_set: &str,
    board: &Board,
    dict: &StrTree,
    pw: &mut PotentialWord,
    best: &mut Option<BestWord>,
) -> (r: Result<(), WordError>)
    requires
        board@.wf(),
        dict.wf(),
        is_rack(letter_set@),
        best_inv(board@, dict@, letter_set@, *old(best), anchor_rank(T::swaps(), 0, 0)),
    ensures
        match r {
            Ok(()) => best_inv(board@, dict@, letter_set@, *final(best), anchor_rank(T::swaps(), 15, 0)),
            Err(e) => exists|v: bool, x: int, y: int, w: Seq<char>|
                is_candidate(board@, dict@, letter_set@, v, x, y, w) && candidate_score(board@, v, x, y, w)
                    == Err::<int, WordError>(e),
        },
{
    let v = T::get_transposition_as_orientation();
    let b = board.oriented(v);
    let mut x: usize = 0;
    while x < SIDE
        invariant
            board@.wf(),
            dict.wf(),
            is_rack(letter_set@),
            v == T::swaps(),
            b@ == board@.with_orientation(v),
            x <= SIDE,
            best_inv(board@, dict@, letter_set@, *best, anchor_rank(v, x as int, 0)),
        decreases SIDE - x,
    {
        let mut y: usize = 0;
        while y < SIDE
            invariant
                board@.wf(),
                dict.wf(),
                is_rack(letter_set@),
                v == T::swaps(),
                b@ == board@.with_orientation(v),
                x < SIDE,
                y <= SIDE,
                best_inv(board@, dict@, letter_set@, *best, anchor_rank(v, x as int, y as int)),
            decreases SIDE - y,
        {
            match visit::<T>(letter_set, board, &b, dict, x, y, pw, best) {
                Ok(()) => {},
                Err(e) => {
                    return Err(e);
                },
            }
            y = y + 1;
        }
        x = x + 1;
    }
    Ok(())
}

/// No candidate fails to score.
pub proof fn lemma_candidate_score_ok(b: BoardView, dict: Set<Seq<char>>, rack: Seq<char>, v: bool, x: int, y: int, w: Seq<char>)
    requires
        b.wf(),
        is_candidate(b, dict, rack, v, x, y, w),
    ensures
        candidate_score(b, v, x, y, w) is Ok,
{
    lemma_candidate_scores(b.with_orientation(v), dict, rack, x, y, w);
}

/// The first play of highest score over every anchor, horizontal plays
/// first, rows in order: every candidate scores at most as much, and every
/// candidate at an earlier anchor less; at its anchor the word kept is the
/// first top-scoring one in the order the anagram search gives them. `None` when no play scores. Scoring a
/// candidate never fails, so neither does the search.
pub fn find_best_word(letter_set: &str, board: &Board, dict: &StrTree) -> (r: Result<Option<BestWord>, WordError>)
    requires
        board@.wf(),
        dict.wf(),
        is_rack(letter_set@),
    ensures
        r is Ok,
        match r {
            Err(e) => exists|v: bool, x: int, y: int, w: Seq<char>|
                is_candidate(board@, dict@, letter_set@, v, x, y, w) && candidate_score(board@, v, x, y, w)
                    == Err::<int, WordError>(e),
            Ok(None) => bounded_before(board@, dict@, letter_set@, 450, 0),
            Ok(Some(bw)) => is_found(board@, dict@, letter_set@, bw) && bounded_before(
                board@,
                dict@,
                letter_set@,
                450,
                bw.score as int,
            ) && below_before(
                board@,
                dict@,
                letter_set@,
                anchor_rank(bw.vertical, scan_coord(bw).0, scan_coord(bw).1),
                bw.score as int,
            ) && first_at(
                board@.with_orientation(bw.vertical),
                dict@,
                letter_set@,
                scan_coord(bw).0,
                scan_coord(bw).1,
                bw.word@,
                bw.score as int,
            ),
        },
{
    let mut best: Option<BestWord> = None;
    let mut pw = PotentialWord::new();
    proof {
        reveal(bounded_before);
        assert forall|v2: bool, x2: int, y2: int, w: Seq<char>|
            anchor_rank(v2, x2, y2) < 0 && #[trigger] is_candidate(board@, dict@, letter_set@, v2, x2, y2, w)
            implies (candidate_score(board@, v2, x2, y2, w) matches Ok(t) && t <= 0) by {}
    }
    match scan::<NotTransposed>(letter_set, board, dict, &mut pw, &mut best) {
        Ok(()) => {},
        Err(e) => {
            proof {
                let (v, x, y, w) = choose|v: bool, x: int, y: int, w: Seq<char>|
                    is_candidate(board@, dict@, letter_set@, v, x, y, w) && candidate_score(board@, v, x, y, w)
                        == Err::<int, WordError>(e);
                lemma_candidate_score_ok(board@, dict@, letter_set@, v, x, y, w);
            }
            return Err(e);
        },
    }
    match scan::<Transposed>(letter_set, board, dict, &mut pw, &mut best) {
        Ok(()) => {},
        Err(e) => {
            proof {
                let (v, x, y, w) = choose|v: bool, x: int, y: int, w: Seq<char>|
                    is_candidate(board@, dict@, letter_set@, v, x, y, w) && candidate_score(board@, v, x, y, w)
                        == Err::<int, WordError>(e);
                lemma_candidate_score_ok(board@, dict@, letter_set@, v, x, y, w);
            }
            return Err(e);
        },
    }
    Ok(best)
}

/// The play the solver returns scores, at its anchor and in its
/// orientation, exactly the score it reports, and more than nothing.
pub proof fn lemma_best_word_score(board: BoardView, dict: Set<Seq<char>>, rack: Seq<char>, bw: BestWord)
    requires
        is_found(board, dict, rack, bw),
    ensures
        board.with_orientation(bw.vertical).score(bw.word@, scan_coord(bw).0, scan_coord(bw).1)
            == Ok::<int, WordError>(bw.score as int),
        bw.score > 0,
{
}

} // verus!
