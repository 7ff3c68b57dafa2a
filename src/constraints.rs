use vstd::prelude::*;
use crate::text::{chars_of, string_of};

verus! {

/// A word crossing the line of play: a letter placed on the crossing square
/// must make `beginning + letter + end` a word.
#[derive(Debug, Clone)]
pub struct WordToFill {
    beginning: String,
    end: String,
}

/// Both parts of a crossing word were empty: nothing crosses there.
#[derive(Debug, PartialEq, Eq, Structural, Clone, Copy)]
pub struct NoWordToFillError;

impl View for WordToFill {
    type V = (Seq<char>, Seq<char>);

    closed spec fn view(&self) -> (Seq<char>, Seq<char>) {
        (self.beginning@, self.end@)
    }
}

impl PartialEq for WordToFill {
    fn eq(&self, other: &WordToFill) -> (r: bool) {
        self.beginning == other.beginning && self.end == other.end
    }
}

impl vstd::std_specs::cmp::PartialEqSpecImpl for WordToFill {
    open spec fn obeys_eq_spec() -> bool {
        true
    }

    open spec fn eq_spec(&self, other: &WordToFill) -> bool {
        self@ == other@
    }
}

impl WordToFill {
    /// A crossing word with the letters above and below the crossing square;
    /// refused when both are empty.
    pub fn new(begin: String, end: String) -> (r: Result<Self, NoWordToFillError>)
        ensures
            r is Err <==> begin@.len() == 0 && end@.len() == 0,
            r matches Ok(w) ==> w@ == (begin@, end@),
    {
        if begin.as_str().unicode_len() == 0 && end.as_str().unicode_len() == 0 {
            return Err(NoWordToFillError);
        }
        Ok(WordToFill { beginning: begin, end })
    }

    pub(crate) fn from_chars(begin: &Vec<char>, end: &Vec<char>) -> (r: Result<Self, NoWordToFillError>)
        ensures
            r is Err <==> begin@.len() == 0 && end@.len() == 0,
            r matches Ok(w) ==> w@ == (begin@, end@),
    {
        Self::new(string_of(begin), string_of(end))
    }

    /// The letters above the crossing square.
    pub fn beginning_chars(&self) -> (r: Vec<char>)
        ensures
            r@ == self@.0,
    {
        chars_of(self.beginning.as_str())
    }

    /// The letters below the crossing square.
    pub fn end_chars(&self) -> (r: Vec<char>)
        ensures
            r@ == self@.1,
    {
        chars_of(self.end.as_str())
    }

    /// The crossing word made with letter `c`.
    pub fn complete(&self, c: char) -> (r: String)
        ensures
            r@ == self@.0 + seq![c] + self@.1,
    {
        let mut v = self.beginning_chars();
        v.push(c);
        let e = self.end_chars();
        let mut i: usize = 0;
        let ghost start = v@;
        while i < e.len()
            invariant
                i <= e.len(),
                v@ == start + e@.subrange(0, i as int),
            decreases e.len() - i,
        {
            v.push(e[i]);
            i = i + 1;
        }
        assert(e@.subrange(0, e.len() as int) == e@);
        string_of(&v)
    }

    /// A copy with the same letters.
    pub fn copy(&self) -> (r: Self)
        ensures
            r@ == self@,
    {
        WordToFill { beginning: self.beginning.clone(), end: self.end.clone() }
    }
}

/// Collects the constraints that the board finds for one anchor square:
/// allowed counts of rack letters, letters in place, and crossing words,
/// each with its position from the anchor, in the order they are found.
#[derive(Debug)]
pub struct PotentialWord {
    nb_letters: Vec<u8>,
    letters: Vec<(u8, char)>,
    words: Vec<(u8, WordToFill)>,
}

/// Crossing words by position, each word as its two parts.
pub open spec fn words_view(f: Seq<(u8, WordToFill)>) -> Seq<(u8, (Seq<char>, Seq<char>))> {
    Seq::new(f.len(), |i: int| (f[i].0, f[i].1@))
}

impl View for PotentialWord {
    type V = (Seq<u8>, Seq<(u8, char)>, Seq<(u8, (Seq<char>, Seq<char>))>);

    closed spec fn view(&self) -> Self::V {
        (self.nb_letters@, self.letters@, words_view(self.words@))
    }
}

impl PotentialWord {
    pub fn new() -> (r: Self)
        ensures
            r@ == (Seq::<u8>::empty(), Seq::<(u8, char)>::empty(), Seq::<(u8, (Seq<char>, Seq<char>))>::empty()),
    {
        let r = PotentialWord { nb_letters: Vec::new(), letters: Vec::new(), words: Vec::new() };
        assert(words_view(r.words@) =~= Seq::<(u8, (Seq<char>, Seq<char>))>::empty());
        r
    }

    /// Forgets every constraint.
    pub fn reset(&mut self)
        ensures
            final(self)@ == (Seq::<u8>::empty(), Seq::<(u8, char)>::empty(), Seq::<(u8, (Seq<char>, Seq<char>))>::empty()),
    {
        self.nb_letters = Vec::new();
        self.letters = Vec::new();
        self.words = Vec::new();
        assert(words_view(self.words@) =~= Seq::<(u8, (Seq<char>, Seq<char>))>::empty());
    }

    /// Allows placements of `n` rack letters.
    pub fn add_nb_letters(&mut self, n: u8)
        ensures
            final(self)@ == (old(self)@.0.push(n), old(self)@.1, old(self)@.2),
    {
        self.nb_letters.push(n);
    }

    /// Records letter `c` already in place at position `pos`.
    pub fn add_letter(&mut self, c: char, pos: u8)
        ensures
            final(self)@ == (old(self)@.0, old(self)@.1.push((pos, c)), old(self)@.2),
    {
        self.letters.push((pos, c));
    }

    /// Records a crossing word at position `pos`.
    pub fn add_word(&mut self, w: WordToFill, pos: u8)
        ensures
            final(self)@ == (old(self)@.0, old(self)@.1, old(self)@.2.push((pos, w@))),
    {
        let ghost old_words = self.words@;
        let ghost wv = w@;
        self.words.push((pos, w));
        assert(words_view(self.words@) =~= words_view(old_words).push((pos, wv)));
    }

    pub fn get_constraint_nb_letters(&self) -> (r: Option<Vec<u8>>)
        ensures
            r matches Some(v) && v@ == self@.0,
    {
        let mut v: Vec<u8> = Vec::new();
        let mut i: usize = 0;
        while i < self.nb_letters.len()
            invariant
                i <= self.nb_letters.len(),
                v@ == self.nb_letters@.subrange(0, i as int),
            decreases self.nb_letters.len() - i,
        {
            v.push(self.nb_letters[i]);
            i = i + 1;
        }
        assert(v@ =~= self.nb_letters@);
        Some(v)
    }

    pub fn get_constraint_letters(&self) -> (r: Option<Vec<(u8, char)>>)
        ensures
            r matches Some(v) && v@ == self@.1,
    {
        let mut v: Vec<(u8, char)> = Vec::new();
        let mut i: usize = 0;
        while i < self.letters.len()
            invariant
                i <= self.letters.len(),
                v@ == self.letters@.subrange(0, i as int),
            decreases self.letters.len() - i,
        {
            v.push(self.letters[i]);
            i = i + 1;
        }
        assert(v@ =~= self.letters@);
        Some(v)
    }

    pub fn get_constraint_words(&self) -> (r: Option<Vec<(u8, WordToFill)>>)
        ensures
            r matches Some(v) && words_view(v@) == self@.2,
    {
        let mut v: Vec<(u8, WordToFill)> = Vec::new();
        let mut i: usize = 0;
        while i < self.words.len()
            invariant
                i <= self.words.len(),
                v.len() == i,
                forall|k: int| 0 <= k < i ==> (#[trigger] v@[k]).0 == self.words@[k].0 && v@[k].1@ == self.words@[k].1@,
            decreases self.words.len() - i,
        {
            let entry = &self.words[i];
            v.push((entry.0, entry.1.copy()));
            i = i + 1;
        }
        assert(words_view(v@) =~= words_view(self.words@));
        Some(v)
    }
}

/// The letter fixed at position `i`: the last entry for that position wins.
pub open spec fn last_fixed(f: Seq<(u8, char)>, i: int) -> Option<char>
    decreases f.len(),
{
    if f.len() == 0 {
        None
    } else if f.last().0 as int == i {
        Some(f.last().1)
    } else {
        last_fixed(f.drop_last(), i)
    }
}

/// The crossing word at position `i`: the last entry for that position wins.
pub open spec fn last_cross(f: Seq<(u8, (Seq<char>, Seq<char>))>, i: int) -> Option<(Seq<char>, Seq<char>)>
    decreases f.len(),
{
    if f.len() == 0 {
        None
    } else if f.last().0 as int == i {
        Some(f.last().1)
    } else {
        last_cross(f.drop_last(), i)
    }
}

pub(crate) fn cross_index(f: &Vec<(u8, WordToFill)>, i: usize) -> (r: Option<usize>)
    ensures
        r matches Some(k) ==> k < f.len() && last_cross(words_view(f@), i as int) == Some(f@[k as int].1@),
        r is None ==> last_cross(words_view(f@), i as int) is None,
{
    let ghost cv = words_view(f@);
    let mut k: usize = f.len();
    assert(cv.subrange(0, k as int) =~= cv);
    while k > 0
        invariant
            cv == words_view(f@),
            k <= f.len(),
            last_cross(cv.subrange(0, k as int), i as int) == last_cross(cv, i as int),
        decreases k,
    {
        assert(cv.subrange(0, k as int).drop_last() =~= cv.subrange(0, k - 1));
        assert(cv.subrange(0, k as int).last() == cv[k - 1]);
        if f[k - 1].0 as usize == i {
            return Some(k - 1);
        }
        k = k - 1;
    }
    None
}

/// Allowed numbers of rack letters, counted from the current depth of a
/// search that goes one position deeper at each `decrease`.
pub trait ConstraintNbLetters: Sized {
    /// Whether no list is given: every count is allowed.
    spec fn unconstrained(&self) -> bool;

    /// Whether the list is sorted in descending order without repeats.
    spec fn fused(&self) -> bool;

    /// Whether `n` more letters from the current depth make an allowed count.
    spec fn allows(&self, n: int) -> bool;

    /// Sorts the list in descending order, drops repeats and zero.
    fn sort_and_fuse(&mut self)
        ensures
            final(self).fused(),
            final(self).unconstrained() == old(self).unconstrained(),
            forall|n: int| #[trigger] final(self).allows(n) == (old(self).allows(n) && (n > 0 || old(self).unconstrained())),
    ;

    /// Goes one position deeper; tells whether an allowed count remains.
    fn decrease(&mut self) -> (r: bool)
        requires
            old(self).fused(),
        ensures
            final(self).fused(),
            final(self).unconstrained() == old(self).unconstrained(),
            forall|n: int| n >= 0 ==> #[trigger] final(self).allows(n) == old(self).allows(n + 1),
            r == (old(self).unconstrained() || exists|n: int| n >= 0 && #[trigger] final(self).allows(n)),
    ;

    /// Whether the current depth is an allowed count.
    fn valid(&self) -> (r: bool)
        requires
            self.fused(),
        ensures
            r == self.allows(0),
    ;
}

/// Letters already on the board, by position from the current depth.
pub trait ConstraintLetters: Sized {
    /// Whether positions are in descending order without repeats.
    spec fn fused(&self) -> bool;

    /// The letter fixed `i` positions from the current depth.
    spec fn letter_at(&self, i: int) -> Option<char>;

    /// The list itself, or `None` when no list is given.
    spec fn entries(&self) -> Option<Seq<(u8, char)>>;

    /// Sorts by descending position; of two entries for a position, the
    /// later one stays.
    fn sort_and_fuse(&mut self)
        ensures
            final(self).fused(),
            forall|i: int| #[trigger] final(self).letter_at(i) == old(self).letter_at(i),
            final(self).entries() == match old(self).entries() {
                None => None,
                Some(e) => Some(fused_entries(e)),
            },
    ;

    /// Goes one position deeper; returns the letter fixed at the current depth.
    fn decrease(&mut self) -> (r: Option<char>)
        requires
            old(self).fused(),
        ensures
            final(self).fused(),
            r == old(self).letter_at(0),
            forall|i: int| i >= 0 ==> #[trigger] final(self).letter_at(i) == old(self).letter_at(i + 1),
            match old(self).entries() {
                None => final(self).entries() is None && r is None,
                Some(e) => final(self).entries() == Some(stepped(e)) && r == (if e.len() > 0 && e.last().0 == 0 {
                    Some(e.last().1)
                } else {
                    None
                }),
            },
    ;
}

/// Crossing words, by position from the current depth.
pub trait ConstraintWords: Sized {
    /// Whether positions are in descending order without repeats.
    spec fn fused(&self) -> bool;

    /// The crossing word `i` positions from the current depth, as its two parts.
    spec fn word_at(&self, i: int) -> Option<(Seq<char>, Seq<char>)>;

    /// The list itself, each word as its two parts, or `None` when no list
    /// is given.
    spec fn entries(&self) -> Option<Seq<(u8, (Seq<char>, Seq<char>))>>;

    /// Sorts by descending position; of two entries for a position, the
    /// later one stays.
    fn sort_and_fuse(&mut self)
        ensures
            final(self).fused(),
            forall|i: int| #[trigger] final(self).word_at(i) == old(self).word_at(i),
            final(self).entries() == match old(self).entries() {
                None => None,
                Some(e) => Some(fused_entries(e)),
            },
    ;

    /// Goes one position deeper; returns the crossing word at the current
    /// depth completed with letter `c`.
    fn decrease(&mut self, c: char) -> (r: Option<String>)
        requires
            old(self).fused(),
        ensures
            final(self).fused(),
            match old(self).word_at(0) {
                None => r is None,
                Some((a, b)) => r matches Some(s) && s@ == a + seq![c] + b,
            },
            forall|i: int| i >= 0 ==> #[trigger] final(self).word_at(i) == old(self).word_at(i + 1),
            match old(self).entries() {
                None => final(self).entries() is None && r is None,
                Some(e) => final(self).entries() == Some(stepped(e)),
            },
    ;
}

/// Whether `n` is in the list.
pub open spec fn has_u8(s: Seq<u8>, n: int) -> bool {
    exists|k: int| 0 <= k < s.len() && s[k] as int == n
}

fn contains_u8(v: &Vec<u8>, x: u8) -> (r: bool)
    ensures
        r == has_u8(v@, x as int),
{
    let mut k: usize = 0;
    while k < v.len()
        invariant
            k <= v.len(),
            forall|j: int| 0 <= j < k ==> v@[j] != x,
        decreases v.len() - k,
    {
        if v[k] == x {
            assert(v@[k as int] as int == x as int);
            return true;
        }
        k = k + 1;
    }
    false
}

impl ConstraintNbLetters for Option<Vec<u8>> {
    open spec fn unconstrained(&self) -> bool {
        *self is None
    }

    open spec fn fused(&self) -> bool {
        match *self {
            None => true,
            Some(v) => forall|a: int, b: int| 0 <= a < b < v.len() ==> v@[a] > v@[b],
        }
    }

    open spec fn allows(&self, n: int) -> bool {
        match *self {
            None => true,
            Some(v) => has_u8(v@, n),
        }
    }

    fn sort_and_fuse(&mut self) {
        let fused: Option<Vec<u8>> = match &*self {
            None => None,
            Some(v) => {
                let mut r: Vec<u8> = Vec::new();
                let mut p: usize = 256;
                while p > 1
                    invariant
                        1 <= p <= 256,
                        forall|a: int, b: int| 0 <= a < b < r.len() ==> r@[a] > r@[b],
                        forall|k: int| 0 <= k < r.len() ==> r@[k] >= p,
                        forall|n: int| p <= n <= 255 ==> #[trigger] has_u8(r@, n) == has_u8(v@, n),
                        forall|n: int| (n < p || n > 255) ==> !#[trigger] has_u8(r@, n),
                    decreases p,
                {
                    p = p - 1;
                    let ghost r0 = r@;
                    if contains_u8(v, p as u8) {
                        r.push(p as u8);
                    }
                    proof {
                        assert forall|n: int| p <= n <= 255 implies #[trigger] has_u8(r@, n) == has_u8(v@, n) by {
                            if n > p {
                                if has_u8(r@, n) {
                                    let k = choose|k: int| 0 <= k < r.len() && r@[k] as int == n;
                                    if k < r0.len() {
                                        assert(r0[k] as int == n);
                                    }
                                }
                                if has_u8(r0, n) {
                                    let k = choose|k: int| 0 <= k < r0.len() && r0[k] as int == n;
                                    assert(r@[k] as int == n);
                                }
                            } else {
                                if has_u8(v@, n) {
                                    assert(r@[r.len() - 1] as int == n);
                                }
                            }
                        }
                        assert forall|n: int| (n < p || n > 255) implies !#[trigger] has_u8(r@, n) by {
                            if has_u8(r@, n) {
                                let k = choose|k: int| 0 <= k < r.len() && r@[k] as int == n;
                                if k < r0.len() {
                                    assert(has_u8(r0, n));
                                }
                            }
                        }
                    }
                }
                proof {
                    assert forall|n: int| #[trigger] has_u8(r@, n) == (has_u8(v@, n) && n > 0) by {
                        if n > 255 && has_u8(v@, n) {
                            let k = choose|k: int| 0 <= k < v.len() && v@[k] as int == n;
                        }
                    }
                }
                Some(r)
            },
        };
        *self = fused;
    }

    fn decrease(&mut self) -> (r: bool) {
        let next: Vec<u8> = match &*self {
            None => {
                return true;
            },
            Some(v) => {
                let n = v.len();
                let end = if n > 0 && v[n - 1] == 0 {
                    n - 1
                } else {
                    n
                };
                let mut r: Vec<u8> = Vec::new();
                let mut k: usize = 0;
                while k < end
                    invariant
                        end <= n == v.len(),
                        end < n ==> v@[n - 1] == 0,
                        end == n ==> (n == 0 || v@[n - 1] != 0),
                        forall|a: int, b: int| 0 <= a < b < v.len() ==> v@[a] > v@[b],
                        k <= end,
                        r.len() == k,
                        forall|j: int| 0 <= j < k ==> r@[j] as int == v@[j] - 1,
                    decreases end - k,
                {
                    proof {
                        if k < n - 1 {
                            assert(v@[k as int] > v@[n - 1]);
                        }
                    }
                    r.push(v[k] - 1);
                    k = k + 1;
                }
                proof {
                    let old_v = v@;
                    assert forall|m: int| m >= 0 implies #[trigger] has_u8(r@, m) == has_u8(old_v, m + 1) by {
                        if has_u8(old_v, m + 1) {
                            let j = choose|j: int| 0 <= j < old_v.len() && old_v[j] as int == m + 1;
                            assert(r@[j] as int == m);
                        }
                        if has_u8(r@, m) {
                            let j = choose|j: int| 0 <= j < r.len() && r@[j] as int == m;
                            assert(old_v[j] as int == m + 1);
                        }
                    }
                    if r.len() > 0 {
                        assert(has_u8(r@, r@[0] as int));
                    }
                    assert forall|a: int, b: int| 0 <= a < b < r.len() implies r@[a] > r@[b] by {
                        assert(old_v[a] > old_v[b]);
                    }
                }
                r
            },
        };
        let res = next.len() > 0;
        let ghost nv = next@;
        *self = Some(next);
        proof {
            if res {
                assert(has_u8(nv, nv[0] as int));
                assert(self.allows(nv[0] as int));
            } else {
                assert forall|n: int| n >= 0 implies !#[trigger] self.allows(n) by {
                    if has_u8(nv, n) {
                        let k = choose|k: int| 0 <= k < nv.len() && nv[k] as int == n;
                    }
                }
            }
        }
        res
    }

    fn valid(&self) -> (r: bool) {
        match self {
            None => true,
            Some(v) => {
                let n = v.len();
                proof {
                    if has_u8(v@, 0) {
                        let k = choose|k: int| 0 <= k < v.len() && v@[k] as int == 0;
                        if k < n - 1 {
                            assert(v@[k] > v@[n - 1]);
                        }
                    }
                }
                proof {
                    if n > 0 && v@[n - 1] == 0 {
                        assert(v@[n - 1] as int == 0);
                    }
                }
                n > 0 && v[n - 1] == 0
            },
        }
    }
}

/// The value listed last for position `i`.
pub open spec fn last_at<T>(f: Seq<(u8, T)>, i: int) -> Option<T>
    decreases f.len(),
{
    if f.len() == 0 {
        None
    } else if f.last().0 as int == i {
        Some(f.last().1)
    } else {
        last_at(f.drop_last(), i)
    }
}

/// The entries at positions `p` and above, by descending position; for
/// each position the value listed last.
pub open spec fn fuse_from<T>(e: Seq<(u8, T)>, p: int) -> Seq<(u8, T)>
    decreases 256 - p,
{
    if p >= 256 {
        Seq::empty()
    } else {
        let rest = fuse_from(e, p + 1);
        match last_at(e, p) {
            Some(v) => rest.push((p as u8, v)),
            None => rest,
        }
    }
}

/// A list sorted by descending position, one entry per position, the later
/// entry of a position winning.
pub open spec fn fused_entries<T>(e: Seq<(u8, T)>) -> Seq<(u8, T)> {
    fuse_from(e, 0)
}

/// A list one position deeper: an entry at position 0 goes, the others
/// move one position closer.
pub open spec fn stepped<T>(e: Seq<(u8, T)>) -> Seq<(u8, T)> {
    if e.len() > 0 && e.last().0 == 0 {
        shifted(e.drop_last())
    } else {
        shifted(e)
    }
}

/// Every position one less.
pub open spec fn shifted<T>(f: Seq<(u8, T)>) -> Seq<(u8, T)> {
    Seq::new(f.len(), |k: int| ((f[k].0 - 1) as u8, f[k].1))
}

pub open spec fn positions_descending<T>(f: Seq<(u8, T)>) -> bool {
    forall|a: int, b: int| 0 <= a < b < f.len() ==> f[a].0 > f[b].0
}

pub(crate) proof fn lemma_last_fixed_is_last_at(f: Seq<(u8, char)>, i: int)
    ensures
        last_fixed(f, i) == last_at(f, i),
    decreases f.len(),
{
    if f.len() > 0 {
        lemma_last_fixed_is_last_at(f.drop_last(), i);
    }
}

proof fn lemma_last_cross_is_last_at(f: Seq<(u8, (Seq<char>, Seq<char>))>, i: int)
    ensures
        last_cross(f, i) == last_at(f, i),
    decreases f.len(),
{
    if f.len() > 0 {
        lemma_last_cross_is_last_at(f.drop_last(), i);
    }
}

proof fn lemma_last_at_absent<T>(f: Seq<(u8, T)>, i: int)
    requires
        forall|k: int| 0 <= k < f.len() ==> f[k].0 as int != i,
    ensures
        last_at(f, i) is None,
    decreases f.len(),
{
    if f.len() > 0 {
        lemma_last_at_absent(f.drop_last(), i);
    }
}

proof fn lemma_last_at_range<T>(f: Seq<(u8, T)>, i: int)
    requires
        i < 0 || i > 255,
    ensures
        last_at(f, i) is None,
{
    lemma_last_at_absent(f, i);
}

proof fn lemma_last_at_push<T>(f: Seq<(u8, T)>, x: (u8, T), i: int)
    ensures
        last_at(f.push(x), i) == if x.0 as int == i {
            Some(x.1)
        } else {
            last_at(f, i)
        },
{
    assert(f.push(x).drop_last() =~= f);
}

proof fn lemma_last_at_shift<T>(f: Seq<(u8, T)>, i: int)
    requires
        forall|k: int| 0 <= k < f.len() ==> f[k].0 >= 1,
    ensures
        last_at(shifted(f), i) == last_at(f, i + 1),
    decreases f.len(),
{
    if f.len() > 0 {
        lemma_last_at_shift(f.drop_last(), i);
        assert(shifted(f).drop_last() =~= shifted(f.drop_last()));
    }
}

/// After a step of a descending list: the last entry, if at position 0, is
/// taken off, and the others move one position closer.
proof fn lemma_step_down<T>(f: Seq<(u8, T)>, end: int, i: int)
    requires
        positions_descending(f),
        f.len() > 0,
        end == if f.last().0 == 0 {
            f.len() - 1
        } else {
            f.len() as int
        },
        i >= 0,
    ensures
        last_at(shifted(f.subrange(0, end)), i) == last_at(f, i + 1),
        positions_descending(shifted(f.subrange(0, end))),
        forall|k: int| 0 <= k < end ==> f[k].0 >= 1,
        f.last().0 != 0 ==> last_at(f, 0) is None,
{
    let n = f.len() as int;
    assert forall|k: int| 0 <= k < end implies f[k].0 >= 1 by {
        if k < n - 1 {
            assert(f[k].0 > f[n - 1].0);
        }
    }
    let s = f.subrange(0, end);
    lemma_last_at_shift(s, i);
    if end == n {
        assert(s =~= f);
    } else {
        assert(s =~= f.drop_last());
    }
    if f.last().0 != 0 {
        lemma_last_at_absent(f, 0);
    }
}

fn letter_lookup(v: &Vec<(u8, char)>, i: usize) -> (r: Option<char>)
    ensures
        r == last_at(v@, i as int),
{
    let mut k: usize = v.len();
    assert(v@.subrange(0, k as int) =~= v@);
    while k > 0
        invariant
            k <= v.len(),
            last_at(v@.subrange(0, k as int), i as int) == last_at(v@, i as int),
        decreases k,
    {
        let (pos, c) = v[k - 1];
        assert(v@.subrange(0, k as int).drop_last() =~= v@.subrange(0, k - 1));
        assert(v@.subrange(0, k as int).last() == v@[k - 1]);
        if pos as usize == i {
            return Some(c);
        }
        k = k - 1;
    }
    None
}

impl ConstraintLetters for Option<Vec<(u8, char)>> {
    open spec fn fused(&self) -> bool {
        match *self {
            None => true,
            Some(v) => positions_descending(v@),
        }
    }

    open spec fn letter_at(&self, i: int) -> Option<char> {
        match *self {
            None => None,
            Some(v) => last_at(v@, i),
        }
    }

    open spec fn entries(&self) -> Option<Seq<(u8, char)>> {
        match *self {
            None => None,
            Some(v) => Some(v@),
        }
    }

    fn sort_and_fuse(&mut self) {
        let fused: Option<Vec<(u8, char)>> = match &*self {
            None => None,
            Some(v) => {
                let mut r: Vec<(u8, char)> = Vec::new();
                let mut p: usize = 256;
                while p > 0
                    invariant
                        p <= 256,
                        positions_descending(r@),
                        r@ == fuse_from(v@, p as int),
                        forall|k: int| 0 <= k < r.len() ==> r@[k].0 >= p,
                        forall|i: int| p <= i <= 255 ==> #[trigger] last_at(r@, i) == last_at(v@, i),
                        forall|i: int| (i < p || i > 255) ==> #[trigger] last_at(r@, i) is None,
                    decreases p,
                {
                    p = p - 1;
                    let ghost r0 = r@;
                    match letter_lookup(v, p) {
                        Some(c) => {
                            r.push((p as u8, c));
                            proof {
                                assert forall|i: int| #[trigger] last_at(r@, i) == if i == p {
                                    Some(c)
                                } else {
                                    last_at(r0, i)
                                } by {
                                    lemma_last_at_push(r0, (p as u8, c), i);
                                }
                            }
                        },
                        None => {},
                    }
                    proof {
                        assert(last_at(r@, p as int) == last_at(v@, p as int));
                    }
                }
                proof {
                    assert forall|i: int| #[trigger] last_at(r@, i) == last_at(v@, i) by {
                        if i < 0 || i > 255 {
                            lemma_last_at_range(v@, i);
                        }
                    }
                }
                Some(r)
            },
        };
        *self = fused;
    }

    fn decrease(&mut self) -> (r: Option<char>) {
        let (ret, next): (Option<char>, Vec<(u8, char)>) = match &*self {
            None => {
                return None;
            },
            Some(v) => {
                let n = v.len();
                if n == 0 {
                    return None;
                }
                let (pos, c) = v[n - 1];
                let end = if pos == 0 {
                    n - 1
                } else {
                    n
                };
                let mut next: Vec<(u8, char)> = Vec::new();
                let mut k: usize = 0;
                proof {
                    lemma_step_down(v@, end as int, 0);
                }
                while k < end
                    invariant
                        end <= n == v.len(),
                        forall|j: int| 0 <= j < end ==> v@[j].0 >= 1,
                        k <= end,
                        next@ == shifted(v@.subrange(0, k as int)),
                    decreases end - k,
                {
                    let (p, l) = v[k];
                    next.push((p - 1, l));
                    assert(next@ =~= shifted(v@.subrange(0, k + 1)));
                    k = k + 1;
                }
                proof {
                    assert forall|i: int| i >= 0 implies #[trigger] last_at(next@, i) == last_at(v@, i + 1) by {
                        lemma_step_down(v@, end as int, i);
                    }
                    lemma_step_down(v@, end as int, 0);
                }
                (if pos == 0 {
                    Some(c)
                } else {
                    None
                }, next)
            },
        };
        *self = Some(next);
        ret
    }
}

fn word_lookup(v: &Vec<(u8, WordToFill)>, i: usize) -> (r: Option<usize>)
    ensures
        r matches Some(k) ==> k < v.len() && last_at(words_view(v@), i as int) == Some(v@[k as int].1@),
        r is None ==> last_at(words_view(v@), i as int) is None,
{
    let r = cross_index(v, i);
    proof {
        lemma_last_cross_is_last_at(words_view(v@), i as int);
    }
    r
}

impl ConstraintWords for Option<Vec<(u8, WordToFill)>> {
    open spec fn fused(&self) -> bool {
        match *self {
            None => true,
            Some(v) => positions_descending(words_view(v@)),
        }
    }

    open spec fn word_at(&self, i: int) -> Option<(Seq<char>, Seq<char>)> {
        match *self {
            None => None,
            Some(v) => last_at(words_view(v@), i),
        }
    }

    open spec fn entries(&self) -> Option<Seq<(u8, (Seq<char>, Seq<char>))>> {
        match *self {
            None => None,
            Some(v) => Some(words_view(v@)),
        }
    }

    fn sort_and_fuse(&mut self) {
        let fused: Option<Vec<(u8, WordToFill)>> = match &*self {
            None => None,
            Some(v) => {
                let mut r: Vec<(u8, WordToFill)> = Vec::new();
                let mut p: usize = 256;
                while p > 0
                    invariant
                        p <= 256,
                        positions_descending(words_view(r@)),
                        words_view(r@) == fuse_from(words_view(v@), p as int),
                        forall|k: int| 0 <= k < r.len() ==> r@[k].0 >= p,
                        forall|i: int| p <= i <= 255 ==> #[trigger] last_at(words_view(r@), i) == last_at(words_view(v@), i),
                        forall|i: int| (i < p || i > 255) ==> #[trigger] last_at(words_view(r@), i) is None,
                    decreases p,
                {
                    p = p - 1;
                    let ghost r0 = words_view(r@);
                    match word_lookup(v, p) {
                        Some(k) => {
                            let w = v[k].1.copy();
                            let ghost wv = w@;
                            r.push((p as u8, w));
                            proof {
                                assert(words_view(r@) =~= r0.push((p as u8, wv)));
                                assert forall|i: int| #[trigger] last_at(words_view(r@), i) == if i == p {
                                    Some(wv)
                                } else {
                                    last_at(r0, i)
                                } by {
                                    lemma_last_at_push(r0, (p as u8, wv), i);
                                }
                            }
                        },
                        None => {},
                    }
                    proof {
                        assert(last_at(words_view(r@), p as int) == last_at(words_view(v@), p as int));
                    }
                }
                proof {
                    assert forall|i: int| #[trigger] last_at(words_view(r@), i) == last_at(words_view(v@), i) by {
                        if i < 0 || i > 255 {
                            lemma_last_at_range(words_view(v@), i);
                        }
                    }
                }
                Some(r)
            },
        };
        *self = fused;
    }

    fn decrease(&mut self, c: char) -> (r: Option<String>) {
        let (ret, next): (Option<String>, Vec<(u8, WordToFill)>) = match &*self {
            None => {
                return None;
            },
            Some(v) => {
                let n = v.len();
                if n == 0 {
                    return None;
                }
                let ghost f = words_view(v@);
                let pos = v[n - 1].0;
                let end = if pos == 0 {
                    n - 1
                } else {
                    n
                };
                let ret = if pos == 0 {
                    Some(v[n - 1].1.complete(c))
                } else {
                    None
                };
                let mut next: Vec<(u8, WordToFill)> = Vec::new();
                let mut k: usize = 0;
                proof {
                    lemma_step_down(f, end as int, 0);
                }
                while k < end
                    invariant
                        f == words_view(v@),
                        end <= n == v.len(),
                        forall|j: int| 0 <= j < end ==> f[j].0 >= 1,
                        k <= end,
                        words_view(next@) == shifted(f.subrange(0, k as int)),
                    decreases end - k,
                {
                    let p = v[k].0;
                    let w = v[k].1.copy();
                    let ghost n0 = words_view(next@);
                    let ghost wv = w@;
                    assert(f[k as int].0 == p && f[k as int].1 == wv);
                    next.push((p - 1, w));
                    assert(words_view(next@) =~= n0.push(((p - 1) as u8, wv)));
                    assert(words_view(next@) =~= shifted(f.subrange(0, k + 1)));
                    k = k + 1;
                }
                proof {
                    assert forall|i: int| i >= 0 implies #[trigger] last_at(words_view(next@), i) == last_at(f, i + 1) by {
                        lemma_step_down(f, end as int, i);
                    }
                    lemma_step_down(f, end as int, 0);
                }
                (ret, next)
            },
        };
        *self = Some(next);
        ret
    }
}

} // verus!
