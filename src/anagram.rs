use vstd::prelude::*;
use crate::constraints::{WordToFill, words_view, last_fixed, last_cross, cross_index, ConstraintNbLetters, ConstraintLetters, lemma_last_fixed_is_last_at, has_u8};
use crate::str_tree::StrTree;
use crate::text::{chars_of, copy_chars, sort_chars, string_of};
use crate::tile::{lemma_case_round_trip, lower, to_upper, upper};
use crate::values::{is_lower, is_upper};

verus! {

broadcast use vstd::multiset::group_multiset_axioms, vstd::seq_lib::group_to_multiset_ensures;

/// Longest placement: the side of the board.
pub const MAX_WORD_LEN: usize = 15;

/// One anagram search: the lexicon, the rack, and the three constraint
/// lists as given (lengths, fixed letters, crossing words by position).
pub struct AnagramQuery {
    pub dict: Set<Seq<char>>,
    pub rack: Seq<char>,
    pub lengths: Option<Seq<u8>>,
    pub fixed: Option<Seq<(u8, char)>>,
    pub cross: Option<Seq<(u8, (Seq<char>, Seq<char>))>>,
}

/// Whether a placement may have length `n`, anchored squares included:
/// any length when unconstrained, otherwise a listed one (zero never counts).
pub open spec fn lengths_allow(lengths: Option<Seq<u8>>, n: int) -> bool {
    match lengths {
        None => true,
        Some(l) => n > 0 && has_u8(l, n),
    }
}

/// What a rack character placed as `ch` takes from the rack: an uppercase
/// letter is a joker.
pub open spec fn rack_use(ch: char) -> char {
    if is_upper(ch) {
        '0'
    } else {
        ch
    }
}

/// The rack characters a placement takes, in order; `_` marks a letter
/// already on the board.
pub open spec fn rack_uses(p: Seq<char>) -> Seq<char>
    decreases p.len(),
{
    if p.len() == 0 {
        Seq::empty()
    } else if p.last() == '_' {
        rack_uses(p.drop_last())
    } else {
        rack_uses(p.drop_last()).push(rack_use(p.last()))
    }
}

/// A rack holds lowercase letters and jokers `0`.
pub open spec fn is_rack(r: Seq<char>) -> bool {
    forall|k: int| 0 <= k < r.len() ==> is_lower(#[trigger] r[k]) || r[k] == '0'
}

pub open spec fn extends(p: Seq<char>, w: Seq<char>) -> bool {
    w.len() <= p.len() && p.subrange(0, w.len() as int) == w
}

impl AnagramQuery {
    /// Whether length `n`, anchored squares included, is allowed.
    pub open spec fn count_allowed(self, n: int) -> bool {
        lengths_allow(self.lengths, n)
    }

    pub open spec fn fixed_at(self, i: int) -> Option<char> {
        match self.fixed {
            None => None,
            Some(f) => last_fixed(f, i),
        }
    }

    pub open spec fn cross_at(self, i: int) -> Option<(Seq<char>, Seq<char>)> {
        match self.cross {
            None => None,
            Some(f) => last_cross(f, i),
        }
    }

    /// The dictionary letter at position `i` when `ch` is written there.
    pub open spec fn letter_at(self, ch: char, i: int) -> char {
        match self.fixed_at(i) {
            Some(c) => c,
            None => lower(ch),
        }
    }

    /// The dictionary word a placement spells.
    pub open spec fn spelled(self, p: Seq<char>) -> Seq<char> {
        Seq::new(p.len(), |i: int| self.letter_at(p[i], i))
    }

    /// Whether `ch` may be written at position `i`: `_` exactly on fixed
    /// positions, a rack letter elsewhere, and crossing words completed.
    pub open spec fn char_ok(self, ch: char, i: int) -> bool {
        &&& (ch == '_') == (self.fixed_at(i) is Some)
        &&& (ch != '_' ==> is_lower(ch) || is_upper(ch))
        &&& (self.cross_at(i) matches Some((a, b)) ==> self.dict.contains(
            a + seq![self.letter_at(ch, i)] + b,
        ))
    }

    /// The placements the search yields.
    pub open spec fn is_placement(self, p: Seq<char>) -> bool {
        &&& p.len() <= MAX_WORD_LEN
        &&& forall|i: int| 0 <= i < p.len() ==> self.char_ok(#[trigger] p[i], i)
        &&& self.fixed_at(p.len() as int) is None
        &&& self.dict.contains(self.spelled(p))
        &&& self.count_allowed(p.len() as int)
        &&& rack_uses(p).to_multiset().subset_of(self.rack.to_multiset())
    }

    spec fn ext(self, w: Seq<char>, p: Seq<char>) -> bool {
        self.is_placement(p) && extends(p, w)
    }

    spec fn ext_upper(self, w: Seq<char>, p: Seq<char>) -> bool {
        self.ext(w, p) && p.len() > w.len() && is_upper(p[w.len() as int])
    }

    spec fn ext_lower(self, w: Seq<char>, p: Seq<char>) -> bool {
        self.ext(w, p) && p.len() > w.len() && is_lower(p[w.len() as int])
    }

    spec fn slot_ok<'a>(self, slot: CrossSlot<'a>, i: int) -> bool {
        match slot {
            CrossSlot::Free => self.cross_at(i) is None,
            CrossSlot::Blocked => match self.cross_at(i) {
                Some((a, _)) => forall|s: Seq<char>| !self.dict.contains(a + s),
                None => false,
            },
            CrossSlot::Check(t, b) => match self.cross_at(i) {
                Some((a, bb)) => bb == b@ && t.wf() && forall|s: Seq<char>| #![trigger t@.contains(s)]
                    t@.contains(s) == self.dict.contains(a + s),
                None => false,
            },
        }
    }

    spec fn tables_ok<'a>(self, t: SearchTables<'a>) -> bool {
        &&& t.allowed.len() == 16 && t.fixed.len() == 16 && t.cross.len() == 16
        &&& forall|n: int| 0 <= n <= 15 ==> t.allowed@[n] == self.count_allowed(n)
        &&& t.max_count <= 15
        &&& forall|n: int| 0 <= n <= 15 && self.count_allowed(n) ==> n <= t.max_count
        &&& forall|i: int| 0 <= i < 16 ==> t.fixed@[i] == self.fixed_at(i)
        &&& forall|i: int| 0 <= i < 16 ==> self.slot_ok(#[trigger] t.cross@[i], i)
    }

    spec fn search_pre<'a>(self, t: SearchTables<'a>, node: StrTree, w: Seq<char>, r: Seq<char>) -> bool {
        &&& self.tables_ok(t)
        &&& self.word_inv(w)
        &&& self.node_inv(node, w)
        &&& self.rack_inv(r, w)
    }

    spec fn word_inv(self, w: Seq<char>) -> bool {
        &&& w.len() <= MAX_WORD_LEN
        &&& forall|i: int| 0 <= i < w.len() ==> self.char_ok(#[trigger] w[i], i)
    }

    spec fn node_inv(self, node: StrTree, w: Seq<char>) -> bool {
        &&& node.wf()
        &&& forall|s: Seq<char>| #![trigger node@.contains(s)]
            node@.contains(s) == self.dict.contains(self.spelled(w) + s)
    }

    spec fn rack_inv(self, r: Seq<char>, w: Seq<char>) -> bool {
        &&& self.rack.to_multiset() =~= r.to_multiset().add(rack_uses(w).to_multiset())
        &&& is_rack(r)
        &&& forall|i: int, j: int| 0 <= i < j < r.len() ==> r[i] <= r[j]
    }
}

/// What the search knows of a crossing square: nothing crosses, no letter
/// can complete the crossing word, or the subtree of its beginning and its end.
enum CrossSlot<'a> {
    Free,
    Blocked,
    Check(&'a StrTree, Vec<char>),
}

/// The constraints laid out by position, for positions 0 to 15.
struct SearchTables<'a> {
    allowed: Vec<bool>,
    max_count: usize,
    fixed: Vec<Option<char>>,
    cross: Vec<CrossSlot<'a>>,
}

spec fn out_grows(o1: Seq<Vec<char>>, o2: Seq<Vec<char>>) -> bool {
    &&& o2.len() >= o1.len()
    &&& forall|k: int| 0 <= k < o1.len() ==> o2[k] == o1[k]
}

pub open spec fn opt_seq<T>(o: Option<Vec<T>>) -> Option<Seq<T>> {
    match o {
        None => None,
        Some(v) => Some(v@),
    }
}

pub open spec fn opt_cross(o: Option<Vec<(u8, WordToFill)>>) -> Option<Seq<(u8, (Seq<char>, Seq<char>))>> {
    match o {
        None => None,
        Some(v) => Some(words_view(v@)),
    }
}

/// The query that `get_anagrams` answers.
pub open spec fn anagram_query(
    dict: Set<Seq<char>>,
    rack: Seq<char>,
    lengths: Option<Vec<u8>>,
    fixed: Option<Vec<(u8, char)>>,
    cross: Option<Vec<(u8, WordToFill)>>,
) -> AnagramQuery {
    AnagramQuery { dict, rack, lengths: opt_seq(lengths), fixed: opt_seq(fixed), cross: opt_cross(cross) }
}

pub(crate) proof fn lemma_uses_append(a: Seq<char>, b: Seq<char>)
    ensures
        rack_uses(a + b) == rack_uses(a) + rack_uses(b),
    decreases b.len(),
{
    if b.len() == 0 {
        assert(a + b =~= a);
        assert(rack_uses(a) + rack_uses(b) =~= rack_uses(a));
    } else {
        lemma_uses_append(a, b.drop_last());
        assert((a + b).drop_last() =~= a + b.drop_last());
        assert((a + b).last() == b.last());
        if b.last() != '_' {
            assert(rack_uses(a) + rack_uses(b.drop_last()).push(rack_use(b.last())) =~= (rack_uses(a)
                + rack_uses(b.drop_last())).push(rack_use(b.last())));
        }
    }
}

pub(crate) proof fn lemma_uses_push(w: Seq<char>, ch: char)
    ensures
        rack_uses(w.push(ch)) == if ch == '_' {
            rack_uses(w)
        } else {
            rack_uses(w).push(rack_use(ch))
        },
{
    assert(w.push(ch).drop_last() =~= w);
}

/// Facts about a placement `p` that goes on past a prefix `w`.
proof fn lemma_next(q: AnagramQuery, w: Seq<char>, p: Seq<char>)
    requires
        q.ext(w, p),
        p.len() > w.len(),
    ensures
        q.char_ok(p[w.len() as int], w.len() as int),
        q.dict.contains(
            q.spelled(w) + (seq![q.letter_at(p[w.len() as int], w.len() as int)] + q.spelled(p).subrange(
                w.len() as int + 1,
                p.len() as int,
            )),
        ),
        rack_uses(p).len() >= rack_uses(w).len() + (if p[w.len() as int] == '_' {
            0int
        } else {
            1int
        }),
        p[w.len() as int] != '_' ==> rack_uses(p).to_multiset().count(rack_use(p[w.len() as int]))
            >= rack_uses(w).to_multiset().count(rack_use(p[w.len() as int])) + 1,
        extends(p, w.push(p[w.len() as int])),
{
    let l = w.len() as int;
    let ch = p[l];
    let t = p.subrange(l + 1, p.len() as int);
    assert(p =~= w.push(ch) + t);
    assert(w.push(ch) == p.subrange(0, l + 1));
    let sp = q.spelled(p);
    assert(sp =~= q.spelled(w) + (seq![q.letter_at(ch, l)] + sp.subrange(l + 1, p.len() as int)));
    lemma_uses_append(w.push(ch), t);
    lemma_uses_push(w, ch);
    if ch != '_' {
        let x = rack_use(ch);
        assert(rack_uses(w.push(ch)) + rack_uses(t) =~= rack_uses(w) + (seq![x] + rack_uses(t)));
        vstd::seq_lib::lemma_multiset_commutative(rack_uses(w), seq![x] + rack_uses(t));
        vstd::seq_lib::lemma_multiset_commutative(seq![x], rack_uses(t));
    }
}

proof fn lemma_ext_push(q: AnagramQuery, w: Seq<char>, ch: char, p: Seq<char>)
    ensures
        q.ext(w.push(ch), p) == (q.ext(w, p) && p.len() > w.len() && p[w.len() as int] == ch),
{
    if q.ext(w.push(ch), p) {
        assert(p.subrange(0, w.len() as int) =~= p.subrange(0, w.len() as int + 1).subrange(0, w.len() as int));
        assert(w.push(ch).subrange(0, w.len() as int) =~= w);
        assert(p[w.len() as int] == p.subrange(0, w.len() as int + 1)[w.len() as int]);
    }
    if q.ext(w, p) && p.len() > w.len() && p[w.len() as int] == ch {
        assert(p.subrange(0, w.len() as int + 1) =~= w.push(ch));
    }
}

proof fn lemma_child_inv(q: AnagramQuery, node: StrTree, w: Seq<char>, child: StrTree, ch: char, c: char)
    requires
        q.node_inv(node, w),
        child.wf(),
        forall|s: Seq<char>| #![trigger child@.contains(s)] child@.contains(s) == node@.contains(seq![c] + s),
        q.letter_at(ch, w.len() as int) == c,
    ensures
        q.node_inv(child, w.push(ch)),
{
    assert(q.spelled(w.push(ch)) =~= q.spelled(w).push(c));
    assert forall|s: Seq<char>| #![trigger child@.contains(s)]
        child@.contains(s) == q.dict.contains(q.spelled(w.push(ch)) + s) by {
        assert(node@.contains(seq![c] + s) == q.dict.contains(q.spelled(w) + (seq![c] + s)));
        assert(q.spelled(w) + (seq![c] + s) =~= q.spelled(w).push(c) + s);
    }
}

proof fn lemma_rack_step(q: AnagramQuery, r: Seq<char>, w: Seq<char>, i: int, ch: char)
    requires
        q.rack_inv(r, w),
        0 <= i < r.len(),
        ch != '_',
        rack_use(ch) == r[i],
    ensures
        q.rack_inv(r.remove(i), w.push(ch)),
{
    lemma_uses_push(w, ch);
    vstd::seq_lib::to_multiset_remove(r, i);
    vstd::seq_lib::to_multiset_build(rack_uses(w), r[i]);
    assert(r.to_multiset().contains(r[i]));
    let r2 = r.remove(i);
    assert forall|a: int, b: int| 0 <= a < b < r2.len() implies r2[a] <= r2[b] by {
        if a < i {
            if b < i {
            } else {
                assert(r2[b] == r[b + 1]);
            }
        } else {
            assert(r2[a] == r[a + 1] && r2[b] == r[b + 1]);
        }
    }
    assert forall|k: int| 0 <= k < r2.len() implies is_lower(#[trigger] r2[k]) || r2[k] == '0' by {
        if k < i {
            assert(r2[k] == r[k]);
        } else {
            assert(r2[k] == r[k + 1]);
        }
    }
    assert(q.rack.to_multiset() =~= r2.to_multiset().add(rack_uses(w.push(ch)).to_multiset()));
}

/// A placement that goes on with a rack character finds it in the rack.
proof fn lemma_in_rack(q: AnagramQuery, r: Seq<char>, w: Seq<char>, p: Seq<char>)
    requires
        q.rack_inv(r, w),
        q.ext(w, p),
        p.len() > w.len(),
        p[w.len() as int] != '_',
    ensures
        exists|k: int| 0 <= k < r.len() && r[k] == rack_use(p[w.len() as int]),
{
    lemma_next(q, w, p);
    let x = rack_use(p[w.len() as int]);
    assert(rack_uses(p).to_multiset().count(x) <= q.rack.to_multiset().count(x));
    assert(r.to_multiset().count(x) > 0);
    assert(r.contains(x));
}

/// Whether `p` is among `out[lo..hi]`.
pub open spec fn produced(out: Seq<Vec<char>>, lo: int, hi: int, p: Seq<char>) -> bool {
    exists|k: int| lo <= k < hi && #[trigger] out[k]@ == p
}

/// The entries of `out[lo..hi]` are pairwise different.
pub open spec fn distinct_between(out: Seq<Vec<char>>, lo: int, hi: int) -> bool {
    forall|a: int, b: int| lo <= a < b < hi ==> out[a]@ != out[b]@
}

proof fn lemma_produced_stable(o1: Seq<Vec<char>>, o2: Seq<Vec<char>>, lo: int, hi: int)
    requires
        0 <= lo,
        hi <= o1.len() <= o2.len(),
        forall|k: int| 0 <= k < o1.len() ==> o2[k] == o1[k],
    ensures
        forall|p: Seq<char>| produced(o2, lo, hi, p) == produced(o1, lo, hi, p),
{
    assert forall|p: Seq<char>| produced(o2, lo, hi, p) == produced(o1, lo, hi, p) by {
        if produced(o2, lo, hi, p) {
            let k = choose|k: int| lo <= k < hi && #[trigger] o2[k]@ == p;
            assert(o1[k]@ == p);
        }
        if produced(o1, lo, hi, p) {
            let k = choose|k: int| lo <= k < hi && #[trigger] o1[k]@ == p;
            assert(o2[k]@ == p);
        }
    }
}

proof fn lemma_produced_split(o: Seq<Vec<char>>, lo: int, mid: int, hi: int)
    requires
        lo <= mid <= hi,
    ensures
        forall|p: Seq<char>| produced(o, lo, hi, p) == (produced(o, lo, mid, p) || produced(o, mid, hi, p)),
{
    assert forall|p: Seq<char>| produced(o, lo, hi, p) == (produced(o, lo, mid, p) || produced(o, mid, hi, p)) by {
        if produced(o, lo, hi, p) {
            let k = choose|k: int| lo <= k < hi && #[trigger] o[k]@ == p;
            if k < mid {
                assert(produced(o, lo, mid, p));
            } else {
                assert(produced(o, mid, hi, p));
            }
        }
        if produced(o, lo, mid, p) {
            let k = choose|k: int| lo <= k < mid && #[trigger] o[k]@ == p;
            assert(lo <= k < hi);
        }
        if produced(o, mid, hi, p) {
            let k = choose|k: int| mid <= k < hi && #[trigger] o[k]@ == p;
            assert(lo <= k < hi);
        }
    }
}


fn cross_allows(slot: &CrossSlot, c: char, Ghost(q): Ghost<AnagramQuery>, Ghost(i): Ghost<int>) -> (r: bool)
    requires
        q.slot_ok(*slot, i),
    ensures
        r == (q.cross_at(i) matches Some((a, b)) ==> q.dict.contains(a + seq![c] + b)),
{
    match slot {
        CrossSlot::Free => true,
        CrossSlot::Blocked => {
            proof {
                let (a, b) = q.cross_at(i)->0;
                assert(a + seq![c] + b =~= a + (seq![c] + b));
            }
            false
        },
        CrossSlot::Check(t, b) => {
            let ghost pair = q.cross_at(i)->0;
            let ghost a = pair.0;
            proof {
                assert(a + seq![c] + b@ =~= a + (seq![c] + b@));
            }
            match t.get_child(c) {
                None => false,
                Some(child) => child.is_word_from(b),
            }
        },
    }
}

fn remove_at(v: &Vec<char>, i: usize) -> (r: Vec<char>)
    requires
        i < v.len(),
    ensures
        r@ == v@.remove(i as int),
{
    let mut r: Vec<char> = Vec::new();
    let mut k: usize = 0;
    while k < v.len()
        invariant
            i < v.len(),
            k <= v.len(),
            k <= i ==> r@ == v@.subrange(0, k as int),
            k > i ==> r@ == v@.subrange(0, i as int) + v@.subrange(i + 1, k as int),
        decreases v.len() - k,
    {
        if k != i {
            r.push(v[k]);
        }
        proof {
            if k < i {
                assert(r@ == v@.subrange(0, k + 1));
            } else if k == i {
                assert(r@ == v@.subrange(0, i as int) + v@.subrange(i + 1, k + 1));
            } else {
                assert(r@ == v@.subrange(0, i as int) + v@.subrange(i + 1, k + 1));
            }
        }
        k = k + 1;
    }
    assert(r@ =~= v@.remove(i as int));
    r
}


spec fn seen_rack(r: Seq<char>, i: int, ch: char) -> bool {
    exists|ii: int| 0 <= ii < i && r[ii] == ch
}

proof fn lemma_seen_rack_next(r: Seq<char>, i: int)
    requires
        0 <= i < r.len(),
    ensures
        forall|ch: char| #[trigger] seen_rack(r, i + 1, ch) == (seen_rack(r, i, ch) || r[i] == ch),
{
    assert forall|ch: char| #[trigger] seen_rack(r, i + 1, ch) == (seen_rack(r, i, ch) || r[i] == ch) by {
        if seen_rack(r, i + 1, ch) {
            let ii = choose|ii: int| 0 <= ii < i + 1 && r[ii] == ch;
            if ii < i {
                assert(seen_rack(r, i, ch));
            }
        }
        if seen_rack(r, i, ch) {
            let ii = choose|ii: int| 0 <= ii < i && r[ii] == ch;
            assert(0 <= ii < i + 1 && r[ii] == ch);
        }
        if r[i] == ch {
            assert(0 <= i < i + 1 && r[i] == ch);
        }
    }
}

spec fn seen_kid(node: StrTree, j: int, ch: char) -> bool {
    exists|jj: int| 0 <= jj < j && ch == upper(#[trigger] node.kid_char(jj))
}

proof fn lemma_seen_kid_next(node: StrTree, j: int)
    requires
        0 <= j,
    ensures
        forall|ch: char| #[trigger] seen_kid(node, j + 1, ch) == (seen_kid(node, j, ch) || ch == upper(node.kid_char(j))),
{
    assert forall|ch: char| #[trigger] seen_kid(node, j + 1, ch) == (seen_kid(node, j, ch) || ch == upper(node.kid_char(j))) by {
        if seen_kid(node, j + 1, ch) {
            let jj = choose|jj: int| 0 <= jj < j + 1 && ch == upper(#[trigger] node.kid_char(jj));
            if jj < j {
                assert(seen_kid(node, j, ch));
            }
        }
        if seen_kid(node, j, ch) {
            let jj = choose|jj: int| 0 <= jj < j && ch == upper(#[trigger] node.kid_char(jj));
            assert(0 <= jj < j + 1 && ch == upper(node.kid_char(jj)));
        }
        if ch == upper(node.kid_char(j)) {
            assert(0 <= j < j + 1 && ch == upper(node.kid_char(j)));
        }
    }
}

proof fn lemma_placement_len(q: AnagramQuery, w: Seq<char>, p: Seq<char>)
    requires
        q.ext(w, p),
        p.len() == w.len(),
    ensures
        p == w,
{
    assert(p =~= p.subrange(0, w.len() as int));
}

/// Searches the placements that extend `word`, from `node`, the subtree of
/// what `word` spells; appends them to `out`.
fn search(
    node: &StrTree,
    tabs: &SearchTables,
    word: &mut Vec<char>,
    rack: &Vec<char>,
    out: &mut Vec<Vec<char>>,
    Ghost(q): Ghost<AnagramQuery>,
)
    requires
        q.search_pre(*tabs, *node, old(word)@, rack@),
    ensures
        final(word)@ == old(word)@,
        out_grows(old(out)@, final(out)@),
        forall|p: Seq<char>|
            produced(final(out)@, old(out)@.len() as int, final(out)@.len() as int, p) == q.ext(old(word)@, p),
        distinct_between(final(out)@, old(out)@.len() as int, final(out)@.len() as int),
    decreases 2 * (16 - old(word)@.len()),
{
    let ghost w = word@;
    let ghost o0 = out@;
    let l = word.len();
    match tabs.fixed[l] {
        Some(c) => {
            proof {
                assert forall|p: Seq<char>| q.ext(w, p) implies p.len() > l && p[l as int] == '_' by {
                    if p.len() == l {
                        lemma_placement_len(q, w, p);
                    } else {
                        lemma_next(q, w, p);
                    }
                }
            }
            if l >= MAX_WORD_LEN {
                return;
            }
            let child = match node.get_child(c) {
                None => {
                    proof {
                        assert forall|p: Seq<char>| !q.ext(w, p) by {
                            if q.ext(w, p) {
                                lemma_next(q, w, p);
                                let rest = q.spelled(p).subrange(l + 1, p.len() as int);
                                assert(node@.contains(seq![c] + rest));
                            }
                        }
                    }
                    return;
                },
                Some(child) => child,
            };
            if !cross_allows(&tabs.cross[l], c, Ghost(q), Ghost(l as int)) {
                proof {
                    assert forall|p: Seq<char>| !q.ext(w, p) by {
                        if q.ext(w, p) {
                            lemma_next(q, w, p);
                        }
                    }
                }
                return;
            }
            proof {
                lemma_child_inv(q, *node, w, *child, '_', c);
                lemma_uses_push(w, '_');
                assert(q.rack_inv(rack@, w.push('_')));
            }
            word.push('_');
            search(child, tabs, word, rack, out, Ghost(q));
            word.pop();
            proof {
                assert(word@ =~= w);
                assert forall|p: Seq<char>|
                    produced(out@, o0.len() as int, out@.len() as int, p) == q.ext(w, p) by {
                    lemma_ext_push(q, w, '_', p);
                }
            }
        },
        None => {
            if node.ends_word() && tabs.allowed[l] {
                out.push(copy_chars(word));
            }
            let ghost o1 = out@;
            proof {
                assert(o1.len() <= o0.len() + 1);
                assert(q.spelled(w) + Seq::<char>::empty() =~= q.spelled(w));
                assert(rack_uses(w).to_multiset().subset_of(q.rack.to_multiset()));
                assert forall|p: Seq<char>|
                    produced(o1, o0.len() as int, o1.len() as int, p) == (p == w && q.is_placement(w)) by {
                    if produced(o1, o0.len() as int, o1.len() as int, p) {
                        let k = choose|k: int| o0.len() <= k < o1.len() && #[trigger] o1[k]@ == p;
                        assert(o1[k]@ == w);
                    }
                    if p == w && q.is_placement(w) {
                        assert(o1[o0.len() as int]@ == p);
                    }
                }
            }
            if l >= MAX_WORD_LEN || l >= tabs.max_count {
                proof {
                    assert(w.subrange(0, l as int) =~= w);
                    assert forall|p: Seq<char>| q.ext(w, p) implies p == w by {
                        if p.len() == l {
                            lemma_placement_len(q, w, p);
                        } else {
                            lemma_next(q, w, p);
                        }
                    }
                }
                return;
            }
            if rack.len() > 0 && rack[0] == '0' {
                search_jokers(node, tabs, word, rack, out, Ghost(q));
            } else {
                proof {
                    assert forall|p: Seq<char>| !produced(out@, o1.len() as int, out@.len() as int, p) by {}
                }
                proof {
                    assert forall|p: Seq<char>| !q.ext_upper(w, p) by {
                        if q.ext_upper(w, p) {
                            lemma_in_rack(q, rack@, w, p);
                            let k = choose|k: int| 0 <= k < rack@.len() && rack@[k] == rack_use(p[l as int]);
                            if k > 0 {
                                assert(rack@[0] <= rack@[k]);
                            }
                        }
                    }
                }
            }
            let ghost o2 = out@;
            proof {
                assert(distinct_between(o2, o1.len() as int, o2.len() as int));
                assert(out_grows(o1, o2));
            }
            search_letters(node, tabs, word, rack, out, Ghost(q));
            proof {
                let o3 = out@;
                lemma_produced_stable(o1, o2, o0.len() as int, o1.len() as int);
                lemma_produced_stable(o2, o3, o0.len() as int, o2.len() as int);
                lemma_produced_stable(o1, o3, o0.len() as int, o1.len() as int);
                lemma_produced_split(o3, o0.len() as int, o1.len() as int, o3.len() as int);
                lemma_produced_split(o3, o1.len() as int, o2.len() as int, o3.len() as int);
                lemma_produced_stable(o2, o3, o1.len() as int, o2.len() as int);
                assert forall|p: Seq<char>|
                    produced(o3, o0.len() as int, o3.len() as int, p) == q.ext(w, p) by {
                    assert(produced(o3, o0.len() as int, o1.len() as int, p) == produced(o1, o0.len() as int, o1.len() as int, p));
                    assert(produced(o3, o1.len() as int, o2.len() as int, p) == produced(o2, o1.len() as int, o2.len() as int, p));
                    assert(produced(o2, o1.len() as int, o2.len() as int, p) == q.ext_upper(w, p));
                    assert(produced(o3, o2.len() as int, o3.len() as int, p) == q.ext_lower(w, p));
                    if q.ext(w, p) && p.len() > l {
                        lemma_next(q, w, p);
                    }
                    if q.ext(w, p) && p.len() == l {
                        lemma_placement_len(q, w, p);
                    }
                    if p == w && q.is_placement(w) {
                        assert(w.subrange(0, l as int) =~= w);
                    }
                }
                assert forall|a: int, b: int| o0.len() <= a < b < o3.len() implies o3[a]@ != o3[b]@ by {
                    let pa = o3[a]@;
                    let pb = o3[b]@;
                    if a < o1.len() {
                        assert(o3[a] == o1[a]);
                        assert(produced(o1, o0.len() as int, o1.len() as int, pa));
                        assert(pa == w);
                        if b < o1.len() {
                            assert(o1.len() <= o0.len() + 1);
                        } else if b < o2.len() {
                            assert(o3[b] == o2[b]);
                            assert(produced(o2, o1.len() as int, o2.len() as int, pb));
                            assert(q.ext_upper(w, pb));
                            assert(pa.len() != pb.len());
                        } else {
                            assert(produced(o3, o2.len() as int, o3.len() as int, pb));
                            assert(q.ext_lower(w, pb));
                            assert(pa.len() != pb.len());
                        }
                    } else if a < o2.len() {
                        assert(o3[a] == o2[a]);
                        assert(produced(o2, o1.len() as int, o2.len() as int, pa));
                        if b < o2.len() {
                            assert(o3[b] == o2[b]);
                            assert(distinct_between(o2, o1.len() as int, o2.len() as int));
                        } else {
                            assert(produced(o3, o2.len() as int, o3.len() as int, pb));
                            assert(q.ext_upper(w, pa) && q.ext_lower(w, pb));
                            assert(pa[l as int] != pb[l as int]);
                        }
                    } else {
                        assert(distinct_between(o3, o2.len() as int, o3.len() as int));
                    }
                }
            }
        },
    }
}

/// Searches the placements that extend `word` with a joker next.
fn search_jokers(
    node: &StrTree,
    tabs: &SearchTables,
    word: &mut Vec<char>,
    rack: &Vec<char>,
    out: &mut Vec<Vec<char>>,
    Ghost(q): Ghost<AnagramQuery>,
)
    requires
        q.search_pre(*tabs, *node, old(word)@, rack@),
        old(word)@.len() < MAX_WORD_LEN,
        old(word)@.len() < tabs.max_count,
        q.fixed_at(old(word)@.len() as int) is None,
        rack@.len() > 0 && rack@[0] == '0',
    ensures
        final(word)@ == old(word)@,
        out_grows(old(out)@, final(out)@),
        forall|p: Seq<char>|
            produced(final(out)@, old(out)@.len() as int, final(out)@.len() as int, p) == q.ext_upper(old(word)@, p),
        distinct_between(final(out)@, old(out)@.len() as int, final(out)@.len() as int),
    decreases 2 * (16 - old(word)@.len()) - 1,
{
    let ghost w = word@;
    let ghost o1 = out@;
    let l = word.len();
    let rest = remove_at(rack, 0);
    let nb = node.nb_children();
    let mut j: usize = 0;
    while j < nb
        invariant
            q.search_pre(*tabs, *node, w, rack@),
            w == old(word)@,
            l == w.len() < MAX_WORD_LEN,
            old(word)@.len() < tabs.max_count,
            q.fixed_at(l as int) is None,
            rack@.len() > 0 && rack@[0] == '0',
            rest@ == rack@.remove(0),
            nb == node.nb_kids(),
            j <= nb,
            word@ == w,
            out_grows(o1, out@),
            forall|p: Seq<char>| #[trigger] produced(out@, o1.len() as int, out@.len() as int, p) == (q.ext_upper(w, p)
                && seen_kid(*node, j as int, p[l as int])),
            distinct_between(out@, o1.len() as int, out@.len() as int),
        decreases nb - j,
    {
        let (child, c) = node.child_at(j);
        let ghost ob = out@;
        proof {
            lemma_case_round_trip(c);
            lemma_seen_kid_next(*node, j as int);
        }
        let u = to_upper(c);
        if cross_allows(&tabs.cross[l], c, Ghost(q), Ghost(l as int)) {
            proof {
                lemma_child_inv(q, *node, w, *child, u, c);
                lemma_rack_step(q, rack@, w, 0, u);
                lemma_uses_push(w, u);
            }
            word.push(u);
            search(child, tabs, word, &rest, out, Ghost(q));
            word.pop();
            proof {
                assert(word@ =~= w);
                let oa = out@;
                lemma_produced_stable(ob, oa, o1.len() as int, ob.len() as int);
                lemma_produced_split(oa, o1.len() as int, ob.len() as int, oa.len() as int);
                assert forall|p: Seq<char>| #[trigger] produced(oa, o1.len() as int, oa.len() as int, p) == (q.ext_upper(w, p)
                    && seen_kid(*node, j + 1, p[l as int])) by {
                    lemma_ext_push(q, w, u, p);
                    assert(produced(oa, ob.len() as int, oa.len() as int, p) == q.ext(w.push(u), p));
                    assert(produced(oa, o1.len() as int, ob.len() as int, p) == produced(ob, o1.len() as int, ob.len() as int, p));
                }
                node.lemma_kids_distinct();
                assert forall|a: int, b: int| o1.len() <= a < b < oa.len() implies oa[a]@ != oa[b]@ by {
                    if a < ob.len() && b >= ob.len() {
                        let pa = oa[a]@;
                        let pb = oa[b]@;
                        assert(ob[a] == oa[a]);
                        assert(produced(ob, o1.len() as int, ob.len() as int, pa));
                        assert(seen_kid(*node, j as int, pa[l as int]));
                        let jj = choose|jj: int| 0 <= jj < j && pa[l as int] == upper(#[trigger] node.kid_char(jj));
                        assert(produced(oa, ob.len() as int, oa.len() as int, pb));
                        lemma_ext_push(q, w, u, pb);
                        lemma_case_round_trip(node.kid_char(jj));
                        assert(node.kid_char(jj) != c);
                    } else if b < ob.len() {
                        assert(ob[a] == oa[a] && ob[b] == oa[b]);
                    }
                }
            }
        } else {
            proof {
                assert forall|p: Seq<char>| #[trigger] produced(out@, o1.len() as int, out@.len() as int, p) == (q.ext_upper(w, p)
                    && seen_kid(*node, j + 1, p[l as int])) by {
                    if q.ext_upper(w, p) && p[l as int] == u {
                        lemma_next(q, w, p);
                        assert(q.letter_at(p[l as int], l as int) == c);
                    }
                }
            }
        }
        j = j + 1;
    }
    proof {
        assert forall|p: Seq<char>| q.ext_upper(w, p) implies seen_kid(*node, nb as int, p[l as int]) by {
            lemma_next(q, w, p);
            let c = lower(p[l as int]);
            lemma_case_round_trip(p[l as int]);
            let rest = q.spelled(p).subrange(l + 1, p.len() as int);
            assert(node@.contains(seq![c] + rest));
            node.lemma_kid_for(c, rest);
            let jj = choose|jj: int| 0 <= jj < node.nb_kids() && node.kid_char(jj) == c;
            assert(p[l as int] == upper(node.kid_char(jj)));
        }
    }
}

/// Searches the placements that extend `word` with a rack letter next.
fn search_letters(
    node: &StrTree,
    tabs: &SearchTables,
    word: &mut Vec<char>,
    rack: &Vec<char>,
    out: &mut Vec<Vec<char>>,
    Ghost(q): Ghost<AnagramQuery>,
)
    requires
        q.search_pre(*tabs, *node, old(word)@, rack@),
        old(word)@.len() < MAX_WORD_LEN,
        old(word)@.len() < tabs.max_count,
        q.fixed_at(old(word)@.len() as int) is None,
    ensures
        final(word)@ == old(word)@,
        out_grows(old(out)@, final(out)@),
        forall|p: Seq<char>|
            produced(final(out)@, old(out)@.len() as int, final(out)@.len() as int, p) == q.ext_lower(old(word)@, p),
        distinct_between(final(out)@, old(out)@.len() as int, final(out)@.len() as int),
    decreases 2 * (16 - old(word)@.len()) - 1,
{
    let ghost w = word@;
    let ghost o1 = out@;
    let l = word.len();
    let mut i: usize = 0;
    while i < rack.len()
        invariant
            q.search_pre(*tabs, *node, w, rack@),
            w == old(word)@,
            l == w.len() < MAX_WORD_LEN,
            old(word)@.len() < tabs.max_count,
            q.fixed_at(l as int) is None,
            i <= rack.len(),
            word@ == w,
            out_grows(o1, out@),
            forall|p: Seq<char>| #[trigger] produced(out@, o1.len() as int, out@.len() as int, p) == (q.ext_lower(w, p)
                && seen_rack(rack@, i as int, p[l as int])),
            distinct_between(out@, o1.len() as int, out@.len() as int),
        decreases rack.len() - i,
    {
        let ghost ob = out@;
        proof {
            lemma_seen_rack_next(rack@, i as int);
        }
        if i > 0 && rack[i - 1] == rack[i] {
            proof {
                assert forall|p: Seq<char>| #[trigger] produced(out@, o1.len() as int, out@.len() as int, p) == (q.ext_lower(w, p)
                    && seen_rack(rack@, i + 1, p[l as int])) by {
                    if p[l as int] == rack@[i as int] {
                        assert(rack@[i - 1] == p[l as int]);
                        assert(seen_rack(rack@, i as int, p[l as int]));
                    }
                }
            }
            i = i + 1;
            continue;
        }
        let c = rack[i];
        match node.get_child(c) {
            None => {
                proof {
                    assert forall|p: Seq<char>| q.ext_lower(w, p) implies p[l as int] != c by {
                        lemma_next(q, w, p);
                        let rest = q.spelled(p).subrange(l + 1, p.len() as int);
                        if p[l as int] == c {
                            assert(node@.contains(seq![c] + rest));
                        }
                    }
                }
            },
            Some(child) => {
                if cross_allows(&tabs.cross[l], c, Ghost(q), Ghost(l as int)) {
                    let rest = remove_at(rack, i);
                    proof {
                        lemma_child_inv(q, *node, w, *child, c, c);
                        lemma_rack_step(q, rack@, w, i as int, c);
                        lemma_uses_push(w, c);
                    }
                    word.push(c);
                    search(child, tabs, word, &rest, out, Ghost(q));
                    word.pop();
                    proof {
                        assert(word@ =~= w);
                        let oa = out@;
                        lemma_produced_stable(ob, oa, o1.len() as int, ob.len() as int);
                        lemma_produced_split(oa, o1.len() as int, ob.len() as int, oa.len() as int);
                        assert forall|p: Seq<char>| #[trigger] produced(oa, o1.len() as int, oa.len() as int, p) == (q.ext_lower(w, p)
                            && seen_rack(rack@, i + 1, p[l as int])) by {
                            lemma_ext_push(q, w, c, p);
                            assert(produced(oa, ob.len() as int, oa.len() as int, p) == q.ext(w.push(c), p));
                            assert(produced(oa, o1.len() as int, ob.len() as int, p) == produced(ob, o1.len() as int, ob.len() as int, p));
                        }
                        assert forall|a: int, b: int| o1.len() <= a < b < oa.len() implies oa[a]@ != oa[b]@ by {
                            if a < ob.len() && b >= ob.len() {
                                let pa = oa[a]@;
                                let pb = oa[b]@;
                                assert(ob[a] == oa[a]);
                                assert(produced(ob, o1.len() as int, ob.len() as int, pa));
                                assert(seen_rack(rack@, i as int, pa[l as int]));
                                let ii = choose|ii: int| 0 <= ii < i && rack@[ii] == pa[l as int];
                                assert(rack@[ii] <= rack@[i - 1]);
                                assert(rack@[i - 1] <= rack@[i as int]);
                                assert(produced(oa, ob.len() as int, oa.len() as int, pb));
                                lemma_ext_push(q, w, c, pb);
                                assert(pb[l as int] == c);
                                assert(pa[l as int] != c);
                            } else if b < ob.len() {
                                assert(ob[a] == oa[a] && ob[b] == oa[b]);
                            } else {
                                assert(distinct_between(oa, ob.len() as int, oa.len() as int));
                            }
                        }
                    }
                } else {
                    proof {
                        assert forall|p: Seq<char>| q.ext_lower(w, p) implies p[l as int] != c by {
                            lemma_next(q, w, p);
                        }
                    }
                }
            },
        }
        i = i + 1;
    }
    proof {
        assert forall|p: Seq<char>| q.ext_lower(w, p) implies seen_rack(rack@, rack@.len() as int, p[l as int]) by {
            lemma_in_rack(q, rack@, w, p);
            let k = choose|k: int| 0 <= k < rack@.len() && rack@[k] == rack_use(p[l as int]);
            assert(rack@[k] == p[l as int]);
        }
    }
}

fn cross_slot<'a>(
    root: &'a StrTree,
    cross: &Option<Vec<(u8, WordToFill)>>,
    i: usize,
    Ghost(q): Ghost<AnagramQuery>,
) -> (r: CrossSlot<'a>)
    requires
        root.wf(),
        q.dict == root@,
        q.cross == opt_cross(*cross),
    ensures
        q.slot_ok(r, i as int),
{
    match cross {
        None => CrossSlot::Free,
        Some(f) => match cross_index(f, i) {
            None => CrossSlot::Free,
            Some(k) => {
                let entry = &f[k];
                let above = entry.1.beginning_chars();
                let below = entry.1.end_chars();
                match root.node_of(&above) {
                    None => CrossSlot::Blocked,
                    Some(t) => CrossSlot::Check(t, below),
                }
            },
        },
    }
}

#[verifier::rlimit(100)]
fn build_tables<'a>(
    root: &'a StrTree,
    lengths: Option<Vec<u8>>,
    fixed: Option<Vec<(u8, char)>>,
    cross: &Option<Vec<(u8, WordToFill)>>,
    Ghost(q): Ghost<AnagramQuery>,
) -> (t: SearchTables<'a>)
    requires
        root.wf(),
        q.dict == root@,
        q.lengths == opt_seq(lengths),
        q.fixed == opt_seq(fixed),
        q.cross == opt_cross(*cross),
    ensures
        q.tables_ok(t),
{
    let mut lengths = lengths;
    let mut fixed = fixed;
    lengths.sort_and_fuse();
    fixed.sort_and_fuse();
    proof {
        assert forall|n: int| n >= 0 implies #[trigger] lengths.allows(n) == q.count_allowed(n) by {}
        assert forall|n: int| n >= 0 implies #[trigger] fixed.letter_at(n) == q.fixed_at(n) by {
            match q.fixed {
                None => {},
                Some(f) => {
                    lemma_last_fixed_is_last_at(f, n);
                },
            }
        }
    }
    let mut allowed: Vec<bool> = Vec::new();
    let mut fx: Vec<Option<char>> = Vec::new();
    let mut cr: Vec<CrossSlot<'a>> = Vec::new();
    let mut max_count: usize = 0;
    let mut i: usize = 0;
    while i < 16
        invariant
            root.wf(),
            q.dict == root@,
            q.cross == opt_cross(*cross),
            lengths.fused(),
            fixed.fused(),
            forall|n: int| n >= 0 ==> #[trigger] lengths.allows(n) == q.count_allowed(n + i),
            forall|n: int| n >= 0 ==> #[trigger] fixed.letter_at(n) == q.fixed_at(n + i),
            i <= 16,
            allowed.len() == i && fx.len() == i && cr.len() == i,
            max_count <= 15,
            forall|n: int| 0 <= n < i ==> allowed@[n] == q.count_allowed(n),
            forall|n: int| 0 <= n < i && q.count_allowed(n) ==> n <= max_count,
            forall|k: int| 0 <= k < i ==> fx@[k] == q.fixed_at(k),
            forall|k: int| 0 <= k < i ==> q.slot_ok(#[trigger] cr@[k], k),
        decreases 16 - i,
    {
        let a = lengths.valid();
        proof {
            assert(lengths.allows(0) == q.count_allowed(i as int));
        }
        if a {
            max_count = i;
        }
        lengths.decrease();
        let f = fixed.decrease();
        proof {
            assert(f == q.fixed_at(i as int));
            assert forall|n: int| n >= 0 implies #[trigger] lengths.allows(n) == q.count_allowed(n + i + 1) by {
                assert(n + 1 >= 0);
            }
            assert forall|n: int| n >= 0 implies #[trigger] fixed.letter_at(n) == q.fixed_at(n + i + 1) by {
                assert(n + 1 >= 0);
            }
        }
        allowed.push(a);
        fx.push(f);
        cr.push(cross_slot(root, cross, i, Ghost(q)));
        i = i + 1;
    }
    SearchTables { allowed, max_count, fixed: fx, cross: cr }
}

/// The characters of `s` that a rack can hold, in order.
pub open spec fn rack_part(s: Seq<char>) -> Seq<char>
    decreases s.len(),
{
    if s.len() == 0 {
        Seq::empty()
    } else if is_lower(s.last()) || s.last() == '0' {
        rack_part(s.drop_last()).push(s.last())
    } else {
        rack_part(s.drop_last())
    }
}

proof fn lemma_rack_part_is_rack(s: Seq<char>)
    ensures
        is_rack(rack_part(s)),
    decreases s.len(),
{
    if s.len() > 0 {
        lemma_rack_part_is_rack(s.drop_last());
    }
}

/// A rack made of the letters of `letters` that can be placed: lowercase
/// letters and jokers `0`; other characters match no word and are left out.
pub fn usable_rack(letters: &str) -> (r: String)
    ensures
        r@ == rack_part(letters@),
        is_rack(r@),
{
    let chars = chars_of(letters);
    let mut v: Vec<char> = Vec::new();
    let mut i: usize = 0;
    while i < chars.len()
        invariant
            chars@ == letters@,
            i <= chars.len(),
            v@ == rack_part(chars@.subrange(0, i as int)),
        decreases chars.len() - i,
    {
        let c = chars[i];
        proof {
            assert(chars@.subrange(0, i + 1).drop_last() =~= chars@.subrange(0, i as int));
        }
        if ('a' <= c && c <= 'z') || c == '0' {
            v.push(c);
        }
        i = i + 1;
    }
    proof {
        assert(chars@.subrange(0, chars.len() as int) =~= letters@);
        lemma_rack_part_is_rack(letters@);
    }
    string_of(&v)
}

/// Order of words: letter by letter by code point, a word before its
/// longer continuations.
pub open spec fn word_lt(a: Seq<char>, b: Seq<char>) -> bool
    decreases a.len(),
{
    if a.len() == 0 {
        b.len() > 0
    } else if b.len() == 0 {
        false
    } else if a[0] != b[0] {
        a[0] < b[0]
    } else {
        word_lt(a.drop_first(), b.drop_first())
    }
}

pub proof fn lemma_word_lt_irreflexive(a: Seq<char>)
    ensures
        !word_lt(a, a),
    decreases a.len(),
{
    if a.len() > 0 {
        lemma_word_lt_irreflexive(a.drop_first());
    }
}

pub proof fn lemma_word_lt_transitive(a: Seq<char>, b: Seq<char>, c: Seq<char>)
    requires
        word_lt(a, b),
        word_lt(b, c),
    ensures
        word_lt(a, c),
    decreases a.len(),
{
    if a.len() > 0 && b.len() > 0 && c.len() > 0 && a[0] == b[0] && b[0] == c[0] {
        lemma_word_lt_transitive(a.drop_first(), b.drop_first(), c.drop_first());
    }
}

pub proof fn lemma_word_lt_total(a: Seq<char>, b: Seq<char>)
    requires
        a != b,
    ensures
        word_lt(a, b) || word_lt(b, a),
    decreases a.len(),
{
    if a.len() > 0 && b.len() > 0 && a[0] == b[0] {
        if a.drop_first() == b.drop_first() {
            assert(a =~= seq![a[0]] + a.drop_first());
            assert(b =~= seq![b[0]] + b.drop_first());
        }
        lemma_word_lt_total(a.drop_first(), b.drop_first());
    } else if a.len() == 0 && b.len() == 0 {
        assert(a =~= b);
    }
}

fn lt_from(a: &Vec<char>, b: &Vec<char>, i: usize) -> (r: bool)
    requires
        i <= a.len(),
        i <= b.len(),
    ensures
        r == word_lt(a@.subrange(i as int, a.len() as int), b@.subrange(i as int, b.len() as int)),
    decreases a.len() - i,
{
    let ghost sa = a@.subrange(i as int, a.len() as int);
    let ghost sb = b@.subrange(i as int, b.len() as int);
    if i == a.len() {
        return i < b.len();
    }
    if i == b.len() {
        return false;
    }
    assert(sa[0] == a@[i as int] && sb[0] == b@[i as int]);
    if a[i] != b[i] {
        return a[i] < b[i];
    }
    assert(sa.drop_first() =~= a@.subrange(i + 1, a.len() as int));
    assert(sb.drop_first() =~= b@.subrange(i + 1, b.len() as int));
    lt_from(a, b, i + 1)
}

/// Whether word `a` comes before word `b`.
fn chars_lt(a: &Vec<char>, b: &Vec<char>) -> (r: bool)
    ensures
        r == word_lt(a@, b@),
{
    assert(a@.subrange(0, a.len() as int) =~= a@);
    assert(b@.subrange(0, b.len() as int) =~= b@);
    lt_from(a, b, 0)
}

pub open spec fn ascending(s: Seq<Vec<char>>) -> bool {
    forall|i: int, j: int| 0 <= i < j < s.len() ==> word_lt(s[i]@, s[j]@)
}

/// The same words, in ascending order.
fn sort_words(v: Vec<Vec<char>>) -> (r: Vec<Vec<char>>)
    requires
        distinct_between(v@, 0, v.len() as int),
    ensures
        ascending(r@),
        forall|p: Seq<char>| produced(r@, 0, r.len() as int, p) == produced(v@, 0, v.len() as int, p),
{
    let mut r: Vec<Vec<char>> = Vec::new();
    let mut k: usize = 0;
    while k < v.len()
        invariant
            distinct_between(v@, 0, v.len() as int),
            k <= v.len(),
            ascending(r@),
            forall|p: Seq<char>| produced(r@, 0, r.len() as int, p) == produced(v@, 0, k as int, p),
        decreases v.len() - k,
    {
        let x = copy_chars(&v[k]);
        let mut pos: usize = 0;
        while pos < r.len() && !chars_lt(&x, &r[pos])
            invariant
                distinct_between(v@, 0, v.len() as int),
                k < v.len(),
                x@ == v@[k as int]@,
                ascending(r@),
                forall|p: Seq<char>| produced(r@, 0, r.len() as int, p) == produced(v@, 0, k as int, p),
                pos <= r.len(),
                forall|j: int| 0 <= j < pos ==> !word_lt(x@, (#[trigger] r@[j])@),
            decreases r.len() - pos,
        {
            pos = pos + 1;
        }
        let ghost r0 = r@;
        proof {
            assert forall|j: int| 0 <= j < r0.len() implies r0[j]@ != x@ by {
                assert(produced(r@, 0, r.len() as int, r0[j]@));
                assert(produced(v@, 0, k as int, r0[j]@));
                let m = choose|m: int| 0 <= m < k && #[trigger] v@[m]@ == r0[j]@;
                assert(v@[m]@ != v@[k as int]@);
            }
        }
        r.insert(pos, x);
        proof {
            assert forall|i: int, j: int| 0 <= i < j < r.len() implies word_lt(r@[i]@, r@[j]@) by {
                if j < pos {
                    assert(r@[i] == r0[i] && r@[j] == r0[j]);
                } else if j == pos {
                    assert(r@[i] == r0[i]);
                    lemma_word_lt_total(r0[i]@, x@);
                } else if i == pos {
                    assert(r@[j] == r0[j - 1]);
                    if pos < r0.len() {
                        assert(word_lt(x@, r0[pos as int]@));
                        if j - 1 > pos {
                            lemma_word_lt_transitive(x@, r0[pos as int]@, r0[j - 1]@);
                        }
                    }
                } else if i < pos {
                    assert(r@[i] == r0[i] && r@[j] == r0[j - 1]);
                } else {
                    assert(r@[i] == r0[i - 1] && r@[j] == r0[j - 1]);
                }
            }
            assert forall|p: Seq<char>| produced(r@, 0, r.len() as int, p) == produced(v@, 0, k + 1, p) by {
                if produced(r@, 0, r.len() as int, p) {
                    let m = choose|m: int| 0 <= m < r.len() && #[trigger] r@[m]@ == p;
                    if m == pos {
                        assert(v@[k as int]@ == p);
                        assert(produced(v@, 0, k + 1, p));
                    } else {
                        let t = if m < pos { m } else { m - 1 };
                        assert(r@[m] == r0[t]);
                        assert(r0[t]@ == p);
                        assert(produced(r0, 0, r0.len() as int, p));
                        assert(produced(v@, 0, k as int, p));
                        let m2 = choose|m2: int| 0 <= m2 < k && #[trigger] v@[m2]@ == p;
                        assert(produced(v@, 0, k + 1, p));
                    }
                }
                if produced(v@, 0, k + 1, p) {
                    let m = choose|m: int| 0 <= m < k + 1 && #[trigger] v@[m]@ == p;
                    if m < k {
                        assert(produced(v@, 0, k as int, p));
                        assert(produced(r0, 0, r0.len() as int, p));
                        let t = choose|t: int| 0 <= t < r0.len() && #[trigger] r0[t]@ == p;
                        if t < pos {
                            assert(r@[t] == r0[t]);
                            assert(produced(r@, 0, r.len() as int, p));
                        } else {
                            assert(r@[t + 1] == r0[t]);
                            assert(produced(r@, 0, r.len() as int, p));
                        }
                    } else {
                        assert(r@[pos as int]@ == p);
                        assert(produced(r@, 0, r.len() as int, p));
                    }
                }
            }
        }
        k = k + 1;
    }
    r
}

impl StrTree {
    /// All placements of rack letters (lowercase, and jokers `0`) that the
    /// constraints admit: a length among `nb_letters`, anchored squares
    /// included, the letters of `letter_constraints` already in place and
    /// written `_`, the crossing words of `word_constraints` completed.
    /// A joker is written as the uppercase letter it stands for. The
    /// placements come in ascending word order, each once.
    pub fn get_anagrams(
        &self,
        letter_set: &str,
        nb_letters: Option<Vec<u8>>,
        letter_constraints: Option<Vec<(u8, char)>>,
        word_constraints: Option<Vec<(u8, WordToFill)>>,
    ) -> (r: Vec<String>)
        requires
            self.wf(),
            is_rack(letter_set@),
        ensures
            forall|p: Seq<char>|
                (exists|k: int| 0 <= k < r.len() && #[trigger] r@[k]@ == p) == anagram_query(
                    self@,
                    letter_set@,
                    nb_letters,
                    letter_constraints,
                    word_constraints,
                ).is_placement(p),
            forall|a: int, b: int| 0 <= a < b < r.len() ==> r@[a]@ != r@[b]@,
            forall|a: int, b: int| 0 <= a < b < r.len() ==> word_lt(r@[a]@, r@[b]@),
    {
        let ghost q = anagram_query(self@, letter_set@, nb_letters, letter_constraints, word_constraints);
        let mut rack = chars_of(letter_set);
        sort_chars(&mut rack);
        let tabs = build_tables(self, nb_letters, letter_constraints, &word_constraints, Ghost(q));
        let mut word: Vec<char> = Vec::new();
        let mut out: Vec<Vec<char>> = Vec::new();
        proof {
            assert(q.spelled(word@) =~= Seq::<char>::empty());
            assert forall|s: Seq<char>| #![trigger self@.contains(s)]
                self@.contains(s) == q.dict.contains(q.spelled(word@) + s) by {
                assert(q.spelled(word@) + s =~= s);
            }
            assert(rack_uses(word@) =~= Seq::<char>::empty());
            assert forall|k: int| 0 <= k < rack@.len() implies is_lower(#[trigger] rack@[k]) || rack@[k] == '0' by {
                assert(rack@.to_multiset().count(rack@[k]) > 0);
                assert(letter_set@.contains(rack@[k]));
            }
            assert(q.rack.to_multiset() =~= rack@.to_multiset().add(rack_uses(word@).to_multiset()));
        }
        search(self, &tabs, &mut word, &rack, &mut out, Ghost(q));
        let ghost found = out@;
        let out = sort_words(out);
        let mut r: Vec<String> = Vec::new();
        let mut k: usize = 0;
        while k < out.len()
            invariant
                k <= out.len(),
                r.len() == k,
                forall|j: int| 0 <= j < k ==> r@[j]@ == out@[j]@,
            decreases out.len() - k,
        {
            r.push(string_of(&out[k]));
            k = k + 1;
        }
        proof {
            assert forall|p: Seq<char>|
                (exists|k: int| 0 <= k < r.len() && #[trigger] r@[k]@ == p) == q.is_placement(p) by {
                assert(p.subrange(0, 0) =~= Seq::<char>::empty());
                assert(produced(found, 0, found.len() as int, p) == q.ext(Seq::<char>::empty(), p));
                assert(produced(out@, 0, out@.len() as int, p) == produced(found, 0, found.len() as int, p));
                if produced(out@, 0, out@.len() as int, p) {
                    let j = choose|j: int| 0 <= j < out@.len() && #[trigger] out@[j]@ == p;
                    assert(r@[j]@ == p);
                }
                if exists|k: int| 0 <= k < r.len() && #[trigger] r@[k]@ == p {
                    let j = choose|j: int| 0 <= j < r.len() && #[trigger] r@[j]@ == p;
                    assert(out@[j]@ == p);
                }
            }
            assert forall|a: int, b: int| 0 <= a < b < r.len() implies word_lt(r@[a]@, r@[b]@) by {
                assert(word_lt(out@[a]@, out@[b]@));
            }
            assert forall|a: int, b: int| 0 <= a < b < r.len() implies r@[a]@ != r@[b]@ by {
                lemma_word_lt_irreflexive(r@[a]@);
            }
        }
        r
    }
}

/// Without constraints, the search yields exactly the words of the lexicon
/// of at most 15 letters that the rack can make, each letter a rack letter
/// or, written in uppercase, a joker.
pub proof fn lemma_unconstrained(q: AnagramQuery, p: Seq<char>)
    requires
        q.lengths is None,
        q.fixed is None,
        q.cross is None,
    ensures
        q.is_placement(p) <==> {
            &&& p.len() <= MAX_WORD_LEN
            &&& forall|i: int| 0 <= i < p.len() ==> is_lower(#[trigger] p[i]) || is_upper(p[i])
            &&& q.dict.contains(Seq::new(p.len(), |i: int| lower(p[i])))
            &&& rack_uses(p).to_multiset().subset_of(q.rack.to_multiset())
        },
{
    assert(q.spelled(p) =~= Seq::new(p.len(), |i: int| lower(p[i])));
}

/// Number of uppercase characters (jokers) of a placement.
pub open spec fn joker_count(p: Seq<char>) -> nat
    decreases p.len(),
{
    if p.len() == 0 {
        0
    } else {
        joker_count(p.drop_last()) + if is_upper(p.last()) {
            1nat
        } else {
            0nat
        }
    }
}

proof fn lemma_uses_counts(p: Seq<char>)
    requires
        forall|i: int| 0 <= i < p.len() ==> is_lower(#[trigger] p[i]) || is_upper(p[i]),
    ensures
        forall|l: char| is_lower(l) ==> #[trigger] rack_uses(p).to_multiset().count(l) == p.to_multiset().count(l),
        rack_uses(p).to_multiset().count('0') == joker_count(p),
        forall|x: char| !is_lower(x) && x != '0' ==> #[trigger] rack_uses(p).to_multiset().count(x) == 0,
    decreases p.len(),
{
    if p.len() > 0 {
        let d = p.drop_last();
        assert forall|i: int| 0 <= i < d.len() implies is_lower(#[trigger] d[i]) || is_upper(d[i]) by {
            assert(d[i] == p[i]);
        }
        lemma_uses_counts(d);
        let c = p.last();
        assert(p == d.push(c));
        vstd::seq_lib::to_multiset_build(d, c);
        vstd::seq_lib::to_multiset_build(rack_uses(d), rack_use(c));
        assert(c != '_');
    }
}

/// Without constraints, a placement is a word of the lexicon of at most 15
/// letters whose lowercase letters the rack holds, letter by letter, and
/// whose uppercase letters (jokers) are no more than the rack's jokers.
pub proof fn lemma_unconstrained_counts(q: AnagramQuery, p: Seq<char>)
    requires
        q.lengths is None,
        q.fixed is None,
        q.cross is None,
        is_rack(q.rack),
    ensures
        q.is_placement(p) <==> {
            &&& p.len() <= MAX_WORD_LEN
            &&& forall|i: int| 0 <= i < p.len() ==> is_lower(#[trigger] p[i]) || is_upper(p[i])
            &&& q.dict.contains(Seq::new(p.len(), |i: int| lower(p[i])))
            &&& forall|l: char| is_lower(l) ==> #[trigger] p.to_multiset().count(l) <= q.rack.to_multiset().count(l)
            &&& joker_count(p) <= q.rack.to_multiset().count('0')
        },
{
    lemma_unconstrained(q, p);
    if forall|i: int| 0 <= i < p.len() ==> is_lower(#[trigger] p[i]) || is_upper(p[i]) {
        lemma_uses_counts(p);
        let u = rack_uses(p).to_multiset();
        let r = q.rack.to_multiset();
        if (forall|l: char| is_lower(l) ==> #[trigger] p.to_multiset().count(l) <= r.count(l)) && joker_count(p) <= r.count('0') {
            assert forall|x: char| #[trigger] u.count(x) <= r.count(x) by {
                if is_lower(x) {
                    assert(p.to_multiset().count(x) <= r.count(x));
                }
            }
            assert(u.subset_of(r));
        }
        if u.subset_of(r) {
            assert forall|l: char| is_lower(l) implies #[trigger] p.to_multiset().count(l) <= r.count(l) by {
                assert(u.count(l) <= r.count(l));
            }
            assert(u.count('0') <= r.count('0'));
        }
    }
}

/// With a single allowed length `k`, every placement has length `k`,
/// anchored squares included.
pub proof fn lemma_single_length(q: AnagramQuery, k: u8, p: Seq<char>)
    requires
        q.lengths == Some(seq![k]),
        q.is_placement(p),
    ensures
        p.len() == k,
{
    let j = choose|j: int| 0 <= j < seq![k].len() && seq![k][j] as int == p.len();
    assert(j == 0);
}

/// A lexicon that placements can be searched in.
pub trait Dictionnary: Sized {
    /// The words of the lexicon.
    spec fn words(&self) -> Set<Seq<char>>;

    spec fn well_formed(&self) -> bool;

    /// The placements of a rack that the constraints admit, each once, in
    /// ascending word order.
    fn get_anagrams(
        &self,
        letter_set: &str,
        nb_letters: Option<Vec<u8>>,
        letter_constraints: Option<Vec<(u8, char)>>,
        word_constraints: Option<Vec<(u8, WordToFill)>>,
    ) -> (r: Vec<String>)
        requires
            self.well_formed(),
            is_rack(letter_set@),
        ensures
            forall|p: Seq<char>|
                (exists|k: int| 0 <= k < r.len() && #[trigger] r@[k]@ == p) == anagram_query(
                    self.words(),
                    letter_set@,
                    nb_letters,
                    letter_constraints,
                    word_constraints,
                ).is_placement(p),
            forall|a: int, b: int| 0 <= a < b < r.len() ==> r@[a]@ != r@[b]@,
            forall|a: int, b: int| 0 <= a < b < r.len() ==> word_lt(r@[a]@, r@[b]@),
    ;

    /// Adds a word of lowercase letters.
    fn add_word(&mut self, new_word: &str)
        requires
            old(self).well_formed(),
            forall|i: int| 0 <= i < new_word@.len() ==> is_lower(#[trigger] new_word@[i]),
        ensures
            final(self).well_formed(),
            final(self).words() == old(self).words().insert(new_word@),
    ;

    /// Whether `word` belongs to the lexicon.
    fn is_word(&self, word: &str) -> (r: bool)
        requires
            self.well_formed(),
        ensures
            r == self.words().contains(word@),
    ;
}

impl Dictionnary for StrTree {
    open spec fn words(&self) -> Set<Seq<char>> {
        self@
    }

    open spec fn well_formed(&self) -> bool {
        self.wf()
    }

    fn get_anagrams(
        &self,
        letter_set: &str,
        nb_letters: Option<Vec<u8>>,
        letter_constraints: Option<Vec<(u8, char)>>,
        word_constraints: Option<Vec<(u8, WordToFill)>>,
    ) -> (r: Vec<String>) {
        StrTree::get_anagrams(self, letter_set, nb_letters, letter_constraints, word_constraints)
    }

    fn add_word(&mut self, new_word: &str) {
        StrTree::add_word(self, new_word)
    }

    fn is_word(&self, word: &str) -> (r: bool) {
        StrTree::is_word(self, word)
    }
}

} // verus!
