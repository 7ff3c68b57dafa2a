use vstd::prelude::*;
use crate::text::chars_of;
use crate::values::is_lower;

verus! {

/// A prefix tree over the lexicon. Each node but the root carries the
/// letter that leads to it from its parent.
pub struct StrTree {
    data: Option<char>,
    is_word: bool,
    children: Vec<StrTree>,
}

impl View for StrTree {
    type V = Set<Seq<char>>;

    /// The words spelled from this node down.
    closed spec fn view(&self) -> Set<Seq<char>> {
        Set::new(|s: Seq<char>| self.has_word(s))
    }
}

impl StrTree {
    /// Position of a child that carries letter `c`, or -1.
    closed spec fn find_child(kids: Seq<StrTree>, c: char) -> int {
        if exists|i: int| 0 <= i < kids.len() && kids[i].data == Some(c) {
            choose|i: int| 0 <= i < kids.len() && kids[i].data == Some(c)
        } else {
            -1
        }
    }

    /// Whether `s` is spelled from this node down to a node marked as a word.
    closed spec fn has_word(self, s: Seq<char>) -> bool
        decreases s.len(),
    {
        if s.len() == 0 {
            self.is_word
        } else {
            let i = Self::find_child(self.children@, s[0]);
            0 <= i < self.children.len() && self.children@[i].has_word(s.drop_first())
        }
    }

    /// The children carry distinct letters.
    closed spec fn distinct_kids(kids: Seq<StrTree>) -> bool {
        forall|i: int, j: int| 0 <= i < j < kids.len() ==> kids[i].data != kids[j].data
    }

    /// Whether some word is spelled from this node down.
    pub(crate) closed spec fn live(self) -> bool {
        exists|s: Seq<char>| self.has_word(s)
    }

    /// Children carry distinct lowercase letters, and a word lies below
    /// each of them, all the way down.
    pub closed spec fn wf(self) -> bool
        decreases self,
    {
        &&& forall|i: int|
            0 <= i < self.children.len() ==> ((#[trigger] self.children@[i]).data matches Some(c)
                && is_lower(c))
        &&& Self::distinct_kids(self.children@)
        &&& forall|i: int|
            0 <= i < self.children.len() ==> (#[trigger] self.children@[i]).wf()
        &&& forall|i: int| 0 <= i < self.children.len() ==> (#[trigger] self.children@[i]).live()
    }

    proof fn lemma_find(kids: Seq<StrTree>, c: char)
        requires
            Self::distinct_kids(kids),
        ensures
            Self::find_child(kids, c) == -1 <==> forall|j: int| 0 <= j < kids.len() ==> kids[j].data != Some(c),
            Self::find_child(kids, c) != -1 ==> 0 <= Self::find_child(kids, c) < kids.len()
                && kids[Self::find_child(kids, c)].data == Some(c),
            forall|j: int| 0 <= j < kids.len() && kids[j].data == Some(c) ==> j == Self::find_child(kids, c),
    {
        if exists|i: int| 0 <= i < kids.len() && kids[i].data == Some(c) {
            let f = Self::find_child(kids, c);
            assert forall|j: int| 0 <= j < kids.len() && kids[j].data == Some(c) implies j == f by {
                if j < f {
                    assert(kids[j].data != kids[f].data);
                } else if f < j {
                    assert(kids[f].data != kids[j].data);
                }
            }
        }
    }

    proof fn lemma_find_same(a: Seq<StrTree>, b: Seq<StrTree>, c: char)
        requires
            Self::distinct_kids(a),
            Self::distinct_kids(b),
            a.len() == b.len(),
            forall|i: int| 0 <= i < a.len() ==> a[i].data == b[i].data,
        ensures
            Self::find_child(a, c) == Self::find_child(b, c),
    {
        Self::lemma_find(a, c);
        Self::lemma_find(b, c);
    }

    /// Every word of a well-formed lexicon is made of lowercase letters.
    pub proof fn lemma_words_lower(self, s: Seq<char>)
        requires
            self.wf(),
            self@.contains(s),
        ensures
            forall|i: int| 0 <= i < s.len() ==> is_lower(#[trigger] s[i]),
        decreases s.len(),
    {
        if s.len() > 0 {
            let i = Self::find_child(self.children@, s[0]);
            Self::lemma_find(self.children@, s[0]);
            assert(self.children@[i].has_word(s.drop_first()));
            self.children@[i].lemma_words_lower(s.drop_first());
            assert forall|k: int| 0 <= k < s.len() implies is_lower(#[trigger] s[k]) by {
                if k > 0 {
                    assert(s[k] == s.drop_first()[k - 1]);
                }
            }
        }
    }

    /// Words through a child are those of the child behind its letter.
    proof fn lemma_step(self, c: char, s: Seq<char>)
        ensures
            self.has_word(seq![c] + s) == (0 <= Self::find_child(self.children@, c) < self.children.len()
                && self.children@[Self::find_child(self.children@, c)].has_word(s)),
    {
        let t = seq![c] + s;
        assert(t.drop_first() =~= s);
        assert(t[0] == c);
    }

    proof fn lemma_child(self, i: int, s: Seq<char>)
        requires
            self.wf(),
            0 <= i < self.children.len(),
        ensures
            self.children@[i].wf(),
            self.children@[i]@.contains(s) == self@.contains(seq![self.children@[i].data->0] + s),
    {
        let c = self.children@[i].data->0;
        self.lemma_step(c, s);
        Self::lemma_find(self.children@, c);
    }

    proof fn lemma_no_child(self, c: char, s: Seq<char>)
        requires
            self.wf(),
            forall|i: int| 0 <= i < self.children.len() ==> self.children@[i].data != Some(c),
        ensures
            !self@.contains(seq![c] + s),
    {
        self.lemma_step(c, s);
        Self::lemma_find(self.children@, c);
    }

    /// An empty lexicon.
    pub fn init() -> (r: Self)
        ensures
            r.wf(),
            r@ == Set::<Seq<char>>::empty(),
    {
        let r = StrTree { data: None, is_word: false, children: Vec::new() };
        assert(r@ =~= Set::<Seq<char>>::empty());
        r
    }

    fn get_child_idx(&self, c: char) -> (r: Option<usize>)
        ensures
            r matches Some(i) ==> i < self.children.len() && self.children@[i as int].data == Some(c),
            r is None ==> forall|i: int|
                0 <= i < self.children.len() ==> self.children@[i].data != Some(c),
    {
        let mut i: usize = 0;
        while i < self.children.len()
            invariant
                i <= self.children.len(),
                forall|k: int| 0 <= k < i ==> self.children@[k].data != Some(c),
            decreases self.children.len() - i,
        {
            if self.children[i].data == Some(c) {
                return Some(i);
            }
            i = i + 1;
        }
        None
    }

    /// The subtree behind letter `c`, if any.
    pub(crate) fn get_child(&self, c: char) -> (r: Option<&StrTree>)
        requires
            self.wf(),
        ensures
            r matches Some(t) ==> t.wf() && is_lower(c) && (exists|s: Seq<char>| t@.contains(s)) && forall|s: Seq<char>|
                #![trigger t@.contains(s)]
                t@.contains(s) == self@.contains(seq![c] + s),
            r is None ==> forall|s: Seq<char>| !self@.contains(seq![c] + s),
    {
        match self.get_child_idx(c) {
            Some(i) => {
                proof {
                    assert forall|s: Seq<char>| #![trigger self.children@[i as int]@.contains(s)]
                        self.children@[i as int]@.contains(s) == self@.contains(seq![c] + s) by {
                        self.lemma_child(i as int, s);
                    }
                    self.lemma_child(i as int, Seq::empty());
                    let t = self.children@[i as int];
                    assert(t.live());
                    let s0 = choose|s: Seq<char>| t.has_word(s);
                    assert(t@.contains(s0));
                }
                Some(&self.children[i])
            },
            None => {
                proof {
                    assert forall|s: Seq<char>| !self@.contains(seq![c] + s) by {
                        self.lemma_no_child(c, s);
                    }
                }
                None
            },
        }
    }

    /// Number of children of this node.
    pub(crate) closed spec fn nb_kids(self) -> int {
        self.children.len() as int
    }

    /// Letter of the `i`-th child.
    pub(crate) closed spec fn kid_char(self, i: int) -> char {
        self.children@[i].data->0
    }

    /// A word that goes on with letter `c` goes through a child with that letter.
    pub(crate) proof fn lemma_kid_for(self, c: char, s: Seq<char>)
        requires
            self.wf(),
            self@.contains(seq![c] + s),
        ensures
            exists|i: int| 0 <= i < self.nb_kids() && self.kid_char(i) == c,
    {
        self.lemma_step(c, s);
        Self::lemma_find(self.children@, c);
        let i = Self::find_child(self.children@, c);
        assert(0 <= i < self.nb_kids() && self.kid_char(i) == c);
    }

    /// Children carry distinct letters.
    pub(crate) proof fn lemma_kids_distinct(self)
        requires
            self.wf(),
        ensures
            forall|i: int, j: int| 0 <= i < j < self.nb_kids() ==> self.kid_char(i) != self.kid_char(j),
            forall|i: int| 0 <= i < self.nb_kids() ==> is_lower(#[trigger] self.kid_char(i)),
    {
        assert forall|i: int, j: int| 0 <= i < j < self.nb_kids() implies self.kid_char(i) != self.kid_char(j) by {
            assert(self.children@[i].data != self.children@[j].data);
            assert(self.children@[i].data is Some);
            assert(self.children@[j].data is Some);
        }
    }

    /// Whether the empty word is spelled from here: the path so far is a word.
    pub(crate) fn ends_word(&self) -> (r: bool)
        ensures
            r == self@.contains(Seq::<char>::empty()),
    {
        assert(self@.contains(Seq::<char>::empty()) == self.is_word);
        self.is_word
    }

    pub(crate) fn nb_children(&self) -> (r: usize)
        ensures
            r == self.nb_kids(),
    {
        self.children.len()
    }

    /// The `i`-th child and its letter.
    pub(crate) fn child_at(&self, i: usize) -> (r: (&StrTree, char))
        requires
            self.wf(),
            i < self.nb_kids(),
        ensures
            r.0.wf(),
            is_lower(r.1),
            r.1 == self.kid_char(i as int),
            forall|s: Seq<char>| #![trigger r.0@.contains(s)]
                r.0@.contains(s) == self@.contains(seq![r.1] + s),
    {
        let t = &self.children[i];
        let c = match t.data {
            Some(c) => c,
            None => 'a',
        };
        proof {
            assert forall|s: Seq<char>| #![trigger t@.contains(s)]
                t@.contains(s) == self@.contains(seq![c] + s) by {
                self.lemma_child(i as int, s);
            }
        }
        (t, c)
    }

    /// Inserts `w[k..]` below this node.
    fn add_from(&mut self, w: &Vec<char>, k: usize)
        requires
            old(self).wf(),
            k <= w.len(),
            forall|i: int| 0 <= i < w.len() ==> is_lower(#[trigger] w@[i]),
        ensures
            final(self).wf(),
            final(self).data == old(self).data,
            final(self)@ == old(self)@.insert(w@.subrange(k as int, w.len() as int)),
        decreases w.len() - k,
    {
        let ghost old_self = *self;
        let ghost rest = w@.subrange(k as int, w.len() as int);
        if k == w.len() {
            self.is_word = true;
            proof {
                assert(self.children == old_self.children);
                assert forall|s: Seq<char>| self.has_word(s) == (old_self.has_word(s) || s == rest) by {
                    if s.len() > 0 {
                        assert(self.has_word(s) == old_self.has_word(s));
                    } else {
                        assert(s =~= rest);
                    }
                }
                assert(self@ =~= old_self@.insert(rest));
            }
            return;
        }
        let c = w[k];
        let idx = match self.get_child_idx(c) {
            Some(i) => i,
            None => {
                let leaf = StrTree { data: Some(c), is_word: false, children: Vec::new() };
                let ghost leaf_g = leaf;
                self.children.push(leaf);
                proof {
                    let ok = old_self.children@;
                    let nk = self.children@;
                    assert(nk == ok.push(leaf_g));
                    assert(Self::distinct_kids(nk)) by {
                        assert forall|i: int, j: int| 0 <= i < j < nk.len() implies nk[i].data != nk[j].data by {
                            if j == nk.len() - 1 {
                                assert(ok[i].data != Some(c));
                            } else {
                                assert(ok[i].data != ok[j].data);
                            }
                        }
                    }
                    assert forall|s: Seq<char>| !leaf_g.has_word(s) by {
                        if s.len() > 0 {
                            Self::lemma_find(leaf_g.children@, s[0]);
                        }
                    }
                    assert forall|s: Seq<char>| self.has_word(s) == old_self.has_word(s) by {
                        if s.len() > 0 {
                            let c0 = s[0];
                            Self::lemma_find(ok, c0);
                            Self::lemma_find(nk, c0);
                            let fo = Self::find_child(ok, c0);
                            let fnew = Self::find_child(nk, c0);
                            if c0 == c {
                                assert(nk[nk.len() - 1].data == Some(c0));
                                assert(fnew == nk.len() - 1);
                                assert(!leaf_g.has_word(s.drop_first()));
                            } else {
                                if fo != -1 {
                                    assert(nk[fo].data == Some(c0));
                                    assert(fnew == fo);
                                } else {
                                    assert(fnew == -1);
                                }
                            }
                        }
                    }
                    assert(self@ =~= old_self@);
                    assert(leaf_g.wf()) by {
                        assert(leaf_g.children@.len() == 0);
                    }
                    assert forall|i: int| 0 <= i < nk.len() implies (#[trigger] nk[i]).wf() by {
                        if i < ok.len() {
                            assert(nk[i] == ok[i]);
                        }
                    }
                    assert forall|i: int| 0 <= i < nk.len() implies ((#[trigger] nk[i]).data matches Some(c2)
                        && is_lower(c2)) by {
                        if i < ok.len() {
                            assert(nk[i] == ok[i]);
                        }
                    }
                    assert forall|i: int| 0 <= i < ok.len() implies (#[trigger] nk[i]).live() by {
                        assert(nk[i] == ok[i]);
                    }
                }
                self.children.len() - 1
            },
        };
        let ghost mid = *self;
        proof {
            assert(mid@ =~= old_self@);
        }
        self.children[idx].add_from(w, k + 1);
        proof {
            let rest1 = w@.subrange(k as int + 1, w.len() as int);
            assert(rest =~= seq![c] + rest1);
            let nc = self.children@[idx as int];
            let oc = mid.children@[idx as int];
            let mk = mid.children@;
            let nk = self.children@;
            assert(nk == mk.update(idx as int, nc));
            assert(nc@ == oc@.insert(rest1));
            assert(Self::distinct_kids(nk)) by {
                assert forall|i: int, j: int| 0 <= i < j < nk.len() implies nk[i].data != nk[j].data by {
                    assert(mk[i].data != mk[j].data);
                }
            }
            assert forall|s: Seq<char>| self.has_word(s) == (mid.has_word(s) || s == rest) by {
                if s.len() > 0 {
                    let c0 = s[0];
                    let t = s.drop_first();
                    assert(s =~= seq![c0] + t);
                    self.lemma_step(c0, t);
                    mid.lemma_step(c0, t);
                    Self::lemma_find_same(mk, nk, c0);
                    Self::lemma_find(mk, c0);
                    let f = Self::find_child(mk, c0);
                    assert(nc.has_word(t) == (oc.has_word(t) || t == rest1)) by {
                        assert(nc@.contains(t) == oc@.insert(rest1).contains(t));
                    }
                    if s == rest {
                        assert(c0 == c);
                        assert(t == rest1);
                        assert(f == idx);
                    }
                    if f == idx {
                        if t == rest1 {
                            assert(s == rest);
                        }
                    }
                }
            }
            assert forall|s: Seq<char>| self@.contains(s) == old_self@.insert(rest).contains(s) by {
                assert(mid@.contains(s) == old_self@.contains(s));
                assert(self.has_word(s) == (mid.has_word(s) || s == rest));
            }
            assert(self@ =~= old_self@.insert(rest));
            assert forall|i: int| 0 <= i < nk.len() implies (#[trigger] nk[i]).wf() by {
                if i != idx {
                    assert(mk[i] == nk[i]);
                }
            }
            assert forall|i: int| 0 <= i < nk.len() implies (#[trigger] nk[i]).live() by {
                if i != idx {
                    assert(mk[i] == nk[i]);
                    if i < old_self.children.len() {
                        assert(old_self.children@[i] == mk[i]);
                    }
                } else {
                    assert(nc@.contains(rest1));
                    assert(nc.has_word(rest1));
                }
            }
            assert forall|i: int| 0 <= i < nk.len() implies ((#[trigger] nk[i]).data matches Some(c)
                && is_lower(c)) by {
                assert(mk[i].data == nk[i].data);
            }
        }
    }

    /// Adds a word of lowercase letters to the lexicon.
    pub fn add_word(&mut self, word: &str)
        requires
            old(self).wf(),
            forall|i: int| 0 <= i < word@.len() ==> is_lower(#[trigger] word@[i]),
        ensures
            final(self).wf(),
            final(self)@ == old(self)@.insert(word@),
    {
        let w = chars_of(word);
        self.add_from(&w, 0);
        assert(w@.subrange(0, w.len() as int) == word@);
    }

    /// The subtree reached by spelling `w` from this node, if any.
    pub(crate) fn node_of(&self, w: &Vec<char>) -> (r: Option<&StrTree>)
        requires
            self.wf(),
        ensures
            r matches Some(t) ==> t.wf() && forall|s: Seq<char>| #![trigger t@.contains(s)]
                t@.contains(s) == self@.contains(w@ + s),
            r is None ==> forall|s: Seq<char>| !self@.contains(w@ + s),
            r is Some <==> (w@.len() == 0 || exists|s: Seq<char>| self@.contains(w@ + s)),
    {
        let mut node = self;
        let mut i: usize = 0;
        while i < w.len()
            invariant
                self.wf(),
                node.wf(),
                i <= w.len(),
                forall|s: Seq<char>| #![trigger node@.contains(s)]
                    node@.contains(s) == self@.contains(w@.subrange(0, i as int) + s),
                i > 0 ==> exists|s: Seq<char>| node@.contains(s),
            decreases w.len() - i,
        {
            let c = w[i];
            proof {
                assert(w@.subrange(0, i + 1) == w@.subrange(0, i as int).push(c));
            }
            match node.get_child(c) {
                None => {
                    proof {
                        assert forall|s: Seq<char>| !self@.contains(w@ + s) by {
                            let t = w@.subrange(i + 1, w.len() as int) + s;
                            assert(w@ + s == w@.subrange(0, i as int) + (seq![c] + t));
                            assert(!node@.contains(seq![c] + t));
                        }
                    }
                    proof {
                        if w@.len() == 0 {
                        }
                    }
                    return None;
                },
                Some(child) => {
                    proof {
                        assert forall|s: Seq<char>| #![trigger child@.contains(s)]
                            child@.contains(s) == self@.contains(w@.subrange(0, i + 1) + s) by {
                            assert(child@.contains(s) == node@.contains(seq![c] + s));
                            assert(w@.subrange(0, i + 1) + s == w@.subrange(0, i as int) + (seq![c] + s));
                        }
                    }
                    node = child;
                },
            }
            i = i + 1;
        }
        proof {
            assert(w@.subrange(0, w.len() as int) == w@);
            if w.len() > 0 {
                let s0 = choose|s: Seq<char>| node@.contains(s);
                assert(self@.contains(w@ + s0));
            }
        }
        Some(node)
    }

    /// The subtree reached by spelling `word` from the root: there is one
    /// exactly when `word` is empty or begins a word of the lexicon.
    pub fn get_node(&self, word: &str) -> (r: Option<&StrTree>)
        requires
            self.wf(),
        ensures
            r matches Some(t) ==> t.wf() && forall|s: Seq<char>| #![trigger t@.contains(s)]
                t@.contains(s) == self@.contains(word@ + s),
            r is None ==> forall|s: Seq<char>| !self@.contains(word@ + s),
            r is Some <==> (word@.len() == 0 || exists|s: Seq<char>| self@.contains(word@ + s)),
    {
        let w = chars_of(word);
        self.node_of(&w)
    }

    pub(crate) fn is_word_from(&self, w: &Vec<char>) -> (r: bool)
        requires
            self.wf(),
        ensures
            r == self@.contains(w@),
    {
        match self.node_of(w) {
            None => {
                assert(w@ + Seq::<char>::empty() == w@);
                false
            },
            Some(t) => {
                assert(w@ + Seq::<char>::empty() == w@);
                assert(t@.contains(Seq::<char>::empty()) == t.is_word);
                t.is_word
            },
        }
    }

    /// Whether `word` belongs to the lexicon.
    pub fn is_word(&self, word: &str) -> (r: bool)
        requires
            self.wf(),
        ensures
            r == self@.contains(word@),
    {
        let w = chars_of(word);
        self.is_word_from(&w)
    }
}

/// The lines of a text, split at each newline.
pub open spec fn text_lines(s: Seq<char>) -> Seq<Seq<char>>
    decreases s.len(),
{
    if s.len() == 0 {
        seq![Seq::<char>::empty()]
    } else {
        let ls = text_lines(s.drop_last());
        if s.last() == '\n' {
            ls.push(Seq::<char>::empty())
        } else {
            ls.update(ls.len() - 1, ls.last().push(s.last()))
        }
    }
}

/// A line without the carriage return that may end it.
pub open spec fn line_word(l: Seq<char>) -> Seq<char> {
    if l.len() > 0 && l.last() == '\r' {
        l.drop_last()
    } else {
        l
    }
}

/// A word the lexicon can hold: lowercase letters, at least one.
pub open spec fn is_lexicon_word(w: Seq<char>) -> bool {
    w.len() > 0 && forall|i: int| 0 <= i < w.len() ==> is_lower(#[trigger] w[i])
}

/// The words that the first `n` lines of a text list, one per line; other
/// lines are no words.
pub open spec fn listed_words(lines: Seq<Seq<char>>, n: int) -> Set<Seq<char>> {
    Set::new(|w: Seq<char>| is_lexicon_word(w) && exists|k: int| 0 <= k < n && line_word(#[trigger] lines[k]) == w)
}

/// The words a text lists, one per line.
pub open spec fn text_words(s: Seq<char>) -> Set<Seq<char>> {
    listed_words(text_lines(s), text_lines(s).len() as int)
}

/// How many of the first `n` lines of a text hold a word.
pub open spec fn word_lines(lines: Seq<Seq<char>>, n: int) -> nat
    decreases n,
{
    if n <= 0 {
        0
    } else {
        word_lines(lines, n - 1) + if is_lexicon_word(line_word(lines[n - 1])) {
            1nat
        } else {
            0nat
        }
    }
}

proof fn lemma_word_lines_same(a: Seq<Seq<char>>, b: Seq<Seq<char>>, n: int)
    requires
        0 <= n <= a.len(),
        n <= b.len(),
        forall|k: int| 0 <= k < n ==> a[k] == b[k],
    ensures
        word_lines(a, n) == word_lines(b, n),
    decreases n,
{
    if n > 0 {
        lemma_word_lines_same(a, b, n - 1);
    }
}

proof fn lemma_listed_step(a: Seq<Seq<char>>, b: Seq<Seq<char>>, n: int)
    requires
        0 <= n <= a.len(),
        n <= b.len(),
        forall|k: int| 0 <= k < n ==> a[k] == b[k],
    ensures
        listed_words(a, n) == listed_words(b, n),
        n < a.len() ==> listed_words(a, n + 1) == if is_lexicon_word(line_word(a[n])) {
            listed_words(a, n).insert(line_word(a[n]))
        } else {
            listed_words(a, n)
        },
{
    assert forall|w: Seq<char>| listed_words(a, n).contains(w) == listed_words(b, n).contains(w) by {
        if listed_words(a, n).contains(w) {
            let k = choose|k: int| 0 <= k < n && line_word(#[trigger] a[k]) == w;
            assert(line_word(b[k]) == w);
        }
        if listed_words(b, n).contains(w) {
            let k = choose|k: int| 0 <= k < n && line_word(#[trigger] b[k]) == w;
            assert(line_word(a[k]) == w);
        }
    }
    assert(listed_words(a, n) =~= listed_words(b, n));
    if n < a.len() {
        let next = if is_lexicon_word(line_word(a[n])) {
            listed_words(a, n).insert(line_word(a[n]))
        } else {
            listed_words(a, n)
        };
        assert forall|w: Seq<char>| listed_words(a, n + 1).contains(w) == next.contains(w) by {
            if listed_words(a, n + 1).contains(w) {
                let k = choose|k: int| 0 <= k < n + 1 && line_word(#[trigger] a[k]) == w;
                if k < n {
                    assert(listed_words(a, n).contains(w));
                }
            }
            if listed_words(a, n).contains(w) {
                let k = choose|k: int| 0 <= k < n && line_word(#[trigger] a[k]) == w;
                assert(0 <= k < n + 1);
            }
            if is_lexicon_word(line_word(a[n])) && w == line_word(a[n]) {
                assert(0 <= n < n + 1 && line_word(a[n]) == w);
            }
        }
        assert(listed_words(a, n + 1) =~= next);
    }
}

impl StrTree {
    /// Adds a line of a lexicon text if it holds a word; tells whether it did.
    fn add_line(&mut self, line: &Vec<char>) -> (r: bool)
        requires
            old(self).wf(),
        ensures
            final(self).wf(),
            r == is_lexicon_word(line_word(line@)),
            final(self)@ == if r {
                old(self)@.insert(line_word(line@))
            } else {
                old(self)@
            },
    {
        let n = line.len();
        let end = if n > 0 && line[n - 1] == '\r' {
            n - 1
        } else {
            n
        };
        let ghost w = line_word(line@);
        assert(w == line@.subrange(0, end as int));
        if end == 0 {
            return false;
        }
        let mut k: usize = 0;
        while k < end
            invariant
                self.wf(),
                self@ == old(self)@,
                w == line_word(line@),
                end <= n == line.len(),
                w == line@.subrange(0, end as int),
                k <= end,
                forall|j: int| 0 <= j < k ==> is_lower(#[trigger] line@[j]),
            decreases end - k,
        {
            if !('a' <= line[k] && line[k] <= 'z') {
                assert(!is_lower(w[k as int]));
                return false;
            }
            k = k + 1;
        }
        let mut word: Vec<char> = Vec::new();
        let mut j: usize = 0;
        while j < end
            invariant
                self.wf(),
                self@ == old(self)@,
                w == line_word(line@),
                w == line@.subrange(0, end as int),
                end <= n == line.len(),
                j <= end,
                word@ == line@.subrange(0, j as int),
            decreases end - j,
        {
            word.push(line[j]);
            j = j + 1;
        }
        assert(word@.subrange(0, word.len() as int) =~= w);
        self.add_from(&word, 0);
        true
    }

    /// Adds the words a text lists, one per line (a line may end with a
    /// carriage return); lines that are no words of lowercase letters are
    /// left out. Returns how many lines held a word.
    pub fn fill_with_text(&mut self, text: &str) -> (count: usize)
        requires
            old(self).wf(),
        ensures
            final(self).wf(),
            final(self)@ == old(self)@.union(text_words(text@)),
            count == word_lines(text_lines(text@), text_lines(text@).len() as int),
    {
        let chars = chars_of(text);
        let ghost start = self@;
        let mut line: Vec<char> = Vec::new();
        let mut count: usize = 0;
        let mut i: usize = 0;
        proof {
            assert(chars@.subrange(0, 0) =~= Seq::<char>::empty());
            assert(listed_words(text_lines(Seq::<char>::empty()), 0) =~= Set::<Seq<char>>::empty());
            assert(start.union(Set::<Seq<char>>::empty()) =~= start);
        }
        while i < chars.len()
            invariant
                self.wf(),
                chars@ == text@,
                i <= chars.len(),
                text_lines(chars@.subrange(0, i as int)).len() >= 1,
                line@ == text_lines(chars@.subrange(0, i as int)).last(),
                self@ == start.union(
                    listed_words(text_lines(chars@.subrange(0, i as int)), text_lines(chars@.subrange(0, i as int)).len() - 1),
                ),
                count == word_lines(text_lines(chars@.subrange(0, i as int)), text_lines(chars@.subrange(0, i as int)).len() - 1),
                count + line.len() <= i,
            decreases chars.len() - i,
        {
            let c = chars[i];
            let ghost pre = chars@.subrange(0, i as int);
            let ghost ls = text_lines(pre);
            let ghost cur = chars@.subrange(0, i + 1);
            proof {
                assert(cur.drop_last() =~= pre);
                assert(cur.last() == c);
            }
            if c == '\n' {
                if self.add_line(&line) {
                    count = count + 1;
                }
                line = Vec::new();
                proof {
                    let ls2 = text_lines(cur);
                    assert(ls2 == ls.push(Seq::<char>::empty()));
                    lemma_listed_step(ls2, ls, ls.len() - 1);
                    lemma_listed_step(ls2, ls2, ls.len() - 1);
                    lemma_word_lines_same(ls2, ls, ls.len() - 1);
                    assert(ls2[ls.len() - 1] == ls.last());
                    assert(line@ =~= ls2.last());
                    assert(self@ =~= start.union(listed_words(ls2, ls2.len() - 1)));
                }
            } else {
                line.push(c);
                proof {
                    let ls2 = text_lines(cur);
                    assert(ls2 == ls.update(ls.len() - 1, ls.last().push(c)));
                    lemma_listed_step(ls, ls2, ls.len() - 1);
                    lemma_word_lines_same(ls, ls2, ls.len() - 1);
                }
            }
            i = i + 1;
        }
        let ghost ls = text_lines(chars@.subrange(0, chars.len() as int));
        if self.add_line(&line) {
            count = count + 1;
        }
        proof {
            assert(chars@.subrange(0, chars.len() as int) =~= text@);
            lemma_listed_step(ls, ls, ls.len() - 1);
            assert(self@ =~= start.union(text_words(text@)));
        }
        count
    }

    /// A lexicon of the words a text lists, one per line.
    pub fn from_text(text: &str) -> (r: StrTree)
        ensures
            r.wf(),
            r@ == text_words(text@),
    {
        let mut r = StrTree::init();
        r.fill_with_text(text);
        assert(r@ =~= text_words(text@));
        r
    }
}

/// A word added to a lexicon belongs to it afterwards.
pub proof fn lemma_added_word_is_word(before: StrTree, after: StrTree, w: Seq<char>)
    requires
        after@ == before@.insert(w),
    ensures
        after@.contains(w),
{
}

} // verus!
