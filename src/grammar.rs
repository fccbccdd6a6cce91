//! The vocabulary of an index and the term-frequency vectors built over it.
use vstd::prelude::*;
use crate::text::{tokenize, tokens_of};

verus! {

/// The largest number of terms that one vector may count. It bounds every
/// key and query, so that exact cosine comparisons fit in 128-bit integers.
pub const MAX_TERMS: u64 = 1048576;

/// A frequency one higher, held at the largest `usize`.
pub open spec fn sat_inc(n: usize) -> usize {
    if n < usize::MAX {
        (n + 1) as usize
    } else {
        n
    }
}

/// The words of a vocabulary, by index.
pub open spec fn words_of(g: Seq<(Seq<char>, usize)>) -> Seq<Seq<char>> {
    Seq::new(g.len(), |i: int| g[i].0)
}

/// A vocabulary after one token is fed to it: a known token has its frequency
/// raised, an unknown one is appended with frequency one.
pub open spec fn add_token(g: Seq<(Seq<char>, usize)>, t: Seq<char>) -> Seq<(Seq<char>, usize)> {
    let ws = words_of(g);
    if ws.contains(t) {
        let i = ws.index_of(t);
        g.update(i, (t, sat_inc(g[i].1)))
    } else {
        g.push((t, 1usize))
    }
}

/// A vocabulary after the tokens `ts` are fed to it, in order.
pub open spec fn add_tokens(g: Seq<(Seq<char>, usize)>, ts: Seq<Seq<char>>) -> Seq<
    (Seq<char>, usize),
>
    decreases ts.len(),
{
    if ts.len() == 0 {
        g
    } else {
        add_token(add_tokens(g, ts.drop_last()), ts.last())
    }
}

/// How many of the tokens `ts` equal `w`.
pub open spec fn count_in(ts: Seq<Seq<char>>, w: Seq<char>) -> nat
    decreases ts.len(),
{
    if ts.len() == 0 {
        0
    } else {
        count_in(ts.drop_last(), w) + if ts.last() == w {
            1nat
        } else {
            0nat
        }
    }
}

/// How many of the tokens `ts` are among the words `ws`.
pub open spec fn known_in(ts: Seq<Seq<char>>, ws: Seq<Seq<char>>) -> nat
    decreases ts.len(),
{
    if ts.len() == 0 {
        0
    } else {
        known_in(ts.drop_last(), ws) + if ws.contains(ts.last()) {
            1nat
        } else {
            0nat
        }
    }
}

/// The sum of the entries of `s`.
pub open spec fn sum_of(s: Seq<u64>) -> int
    decreases s.len(),
{
    if s.len() == 0 {
        0
    } else {
        sum_of(s.drop_last()) + s.last()
    }
}

pub proof fn lemma_sum_update(s: Seq<u64>, i: int, v: u64)
    requires
        0 <= i < s.len(),
    ensures
        sum_of(s.update(i, v)) == sum_of(s) - s[i] + v,
    decreases s.len(),
{
    if i < s.len() - 1 {
        lemma_sum_update(s.drop_last(), i, v);
        assert(s.update(i, v).drop_last() =~= s.drop_last().update(i, v));
    } else {
        assert(s.update(i, v).drop_last() =~= s.drop_last());
    }
}

pub proof fn lemma_count_absent(ts: Seq<Seq<char>>, w: Seq<char>)
    requires
        !ts.contains(w),
    ensures
        count_in(ts, w) == 0,
    decreases ts.len(),
{
    if ts.len() > 0 {
        assert(ts.drop_last().contains(w) ==> ts.contains(w)) by {
            if ts.drop_last().contains(w) {
                let j = choose|j: int| 0 <= j < ts.drop_last().len() && ts.drop_last()[j] == w;
                assert(ts[j] == w);
            }
        }
        assert(ts[ts.len() - 1] == ts.last());
        lemma_count_absent(ts.drop_last(), w);
    }
}

/// A term-frequency vector: the frequency of word `i` is `counts[i] / total`,
/// and `total` is the sum of the counts, so the frequencies sum to one (all
/// zero when `total` is zero).
pub struct TfVector {
    pub counts: Vec<u64>,
    pub total: u64,
}

impl TfVector {
    pub open spec fn wf(&self) -> bool {
        &&& self.total == sum_of(self.counts@)
        &&& self.total <= MAX_TERMS
        &&& forall|i: int| 0 <= i < self.counts@.len() ==> self.counts@[i] <= self.total
    }
}

/// What a vector is built from: a text, tokenized first, or tokens taken as they are.
pub enum VectorInput {
    Text(String),
    Tokens(Vec<String>),
}

impl VectorInput {
    /// The tokens that this input counts.
    pub open spec fn tokens(&self) -> Seq<Seq<char>> {
        match self {
            VectorInput::Text(s) => tokens_of(s@),
            VectorInput::Tokens(ts) => ts.deep_view(),
        }
    }

    /// Its length: characters of a text, or the number of tokens.
    pub open spec fn size(&self) -> nat {
        match self {
            VectorInput::Text(s) => s@.len(),
            VectorInput::Tokens(ts) => ts@.len(),
        }
    }

    pub proof fn lemma_tokens_within_size(&self)
        ensures
            self.tokens().len() <= self.size(),
    {
        match self {
            VectorInput::Text(s) => crate::text::lemma_tokens_len(s@),
            VectorInput::Tokens(ts) => {},
        }
    }
}

/// A vocabulary: each word with the number of times it was fed, in the order
/// in which the words were first seen. A word's index never changes.
pub struct Grammar {
    pub tokens: Vec<(String, usize)>,
}

impl Grammar {
    pub open spec fn entries(&self) -> Seq<(Seq<char>, usize)> {
        Seq::new(self.tokens@.len(), |i: int| (self.tokens@[i].0@, self.tokens@[i].1))
    }

    pub open spec fn words(&self) -> Seq<Seq<char>> {
        words_of(self.entries())
    }

    /// No word is listed twice.
    pub open spec fn wf(&self) -> bool {
        self.words().no_duplicates()
    }

    /// An empty vocabulary.
    pub fn new() -> (r: Grammar)
        ensures
            r.entries() == Seq::<(Seq<char>, usize)>::empty(),
            r.wf(),
    {
        let r = Grammar { tokens: Vec::new() };
        assert(r.entries() =~= Seq::<(Seq<char>, usize)>::empty());
        r
    }

    /// The number of words.
    pub fn len(&self) -> (r: usize)
        ensures
            r == self.entries().len(),
    {
        self.tokens.len()
    }

    /// The index of `token`, if it is a word of the vocabulary.
    pub fn find(&self, token: &String) -> (r: Option<usize>)
        ensures
            match r {
                Some(i) => i < self.entries().len() && self.words()[i as int] == token@,
                None => !self.words().contains(token@),
            },
    {
        let mut i: usize = 0;
        while i < self.tokens.len()
            invariant
                0 <= i <= self.tokens@.len(),
                forall|j: int| 0 <= j < i ==> self.words()[j] != token@,
            decreases self.tokens@.len() - i,
        {
            if self.tokens[i].0 == *token {
                return Some(i);
            }
            i = i + 1;
        }
        None
    }

    /// Feeds one token: returns its index, raising its frequency when it is
    /// known and appending it with frequency one when it is not.
    pub fn insert_token(&mut self, token: &str) -> (r: usize)
        requires
            old(self).wf(),
        ensures
            final(self).wf(),
            final(self).entries() == add_token(old(self).entries(), token@),
            r < final(self).entries().len(),
            final(self).words()[r as int] == token@,
    {
        let t: String = token.to_owned();
        let ghost g = self.entries();
        match self.find(&t) {
            Some(idx) => {
                proof {
                    let ws = words_of(g);
                    assert(ws.contains(token@));
                    let k = ws.index_of(token@);
                    assert(k == idx as int);
                }
                let f = self.tokens[idx].1;
                let nf = if f < usize::MAX {
                    f + 1
                } else {
                    f
                };
                let name = self.tokens[idx].0.clone();
                self.tokens.set(idx, (name, nf));
                assert(self.entries() =~= add_token(g, token@));
                assert(self.words() =~= words_of(g));
                idx
            },
            None => {
                let idx = self.tokens.len();
                self.tokens.push((t, 1));
                assert(self.entries() =~= add_token(g, token@));
                assert(self.words() =~= words_of(g).push(token@));
                idx
            },
        }
    }

    /// A vector over the vocabulary as it is: one count per word, tokens that
    /// are not words of it are left out. The vocabulary does not change.
    pub fn transform_flat(&self, input: &VectorInput) -> (r: TfVector)
        requires
            self.wf(),
            input.size() <= MAX_TERMS,
        ensures
            r.wf(),
            r.counts@.len() == self.entries().len(),
            forall|i: int|
                0 <= i < r.counts@.len() ==> r.counts@[i] == count_in(
                    input.tokens(),
                    self.words()[i],
                ),
            r.total == known_in(input.tokens(), self.words()),
    {
        proof {
            input.lemma_tokens_within_size();
        }
        match input {
            VectorInput::Text(s) => {
                let ts = tokenize(s.as_str());
                self.flat_of_tokens(&ts)
            },
            VectorInput::Tokens(ts) => self.flat_of_tokens(ts),
        }
    }

    /// A vector over the vocabulary after every token of `input` has been fed
    /// to it (see `insert_token`): each token is counted, and the vector has
    /// one count per word of the grown vocabulary.
    pub fn transform(&mut self, input: &VectorInput) -> (r: TfVector)
        requires
            old(self).wf(),
            input.size() <= MAX_TERMS,
        ensures
            final(self).wf(),
            final(self).entries() == add_tokens(old(self).entries(), input.tokens()),
            r.wf(),
            r.counts@.len() == final(self).entries().len(),
            forall|i: int|
                0 <= i < r.counts@.len() ==> r.counts@[i] == count_in(
                    input.tokens(),
                    final(self).words()[i],
                ),
            r.total == input.tokens().len(),
    {
        proof {
            input.lemma_tokens_within_size();
        }
        match input {
            VectorInput::Text(s) => {
                let ts = tokenize(s.as_str());
                self.feed_tokens(&ts)
            },
            VectorInput::Tokens(ts) => self.feed_tokens(ts),
        }
    }

    fn feed_tokens(&mut self, ts: &Vec<String>) -> (r: TfVector)
        requires
            old(self).wf(),
            ts@.len() <= MAX_TERMS,
        ensures
            final(self).wf(),
            final(self).entries() == add_tokens(old(self).entries(), ts.deep_view()),
            r.wf(),
            r.counts@.len() == final(self).entries().len(),
            forall|i: int|
                0 <= i < r.counts@.len() ==> r.counts@[i] == count_in(
                    ts.deep_view(),
                    final(self).words()[i],
                ),
            r.total == ts@.len(),
    {
        let ghost g0 = self.entries();
        let mut counts: Vec<u64> = Vec::new();
        let mut k: usize = 0;
        let n0 = self.len();
        while k < n0
            invariant
                k <= n0,
                n0 == self.entries().len(),
                counts@.len() == k,
                forall|i: int| 0 <= i < k ==> counts@[i] == 0,
                sum_of(counts@) == 0,
            decreases n0 - k,
        {
            let ghost before = counts@;
            counts.push(0);
            assert(counts@.drop_last() =~= before);
            k = k + 1;
        }
        let mut total: u64 = 0;
        let mut j: usize = 0;
        assert(ts.deep_view().take(0) =~= Seq::<Seq<char>>::empty());
        while j < ts.len()
            invariant
                self.wf(),
                ts@.len() <= MAX_TERMS,
                j <= ts@.len(),
                self.entries() == add_tokens(g0, ts.deep_view().take(j as int)),
                counts@.len() == self.entries().len(),
                forall|i: int|
                    0 <= i < counts@.len() ==> counts@[i] == count_in(
                        ts.deep_view().take(j as int),
                        self.words()[i],
                    ),
                forall|i: int| 0 <= i < counts@.len() ==> counts@[i] <= total,
                forall|k: int| 0 <= k < j ==> self.words().contains(ts.deep_view()[k]),
                total == sum_of(counts@),
                total == j,
            decreases ts@.len() - j,
        {
            let ghost pre = ts.deep_view().take(j as int);
            let ghost post = ts.deep_view().take(j + 1);
            let ghost ws0 = self.words();
            let ghost t = ts@[j as int]@;
            assert(post.drop_last() =~= pre);
            assert(post.last() == t);
            let idx = self.insert_token(ts[j].as_str());
            let ghost ws1 = self.words();
            proof {
                if ws0.contains(t) {
                    assert(ws1 =~= ws0);
                } else {
                    assert(ws1 =~= ws0.push(t));
                    assert(ws1[ws0.len() as int] == t);
                    assert(idx == ws0.len());
                }
            }
            if idx == counts.len() {
                proof {
                    assert(!ws0.contains(t)) by {
                        if ws0.contains(t) {
                            assert(ws1 =~= ws0);
                        }
                    }
                    assert(!pre.contains(t)) by {
                        if pre.contains(t) {
                            let k = choose|k: int| 0 <= k < pre.len() && pre[k] == t;
                            assert(ts.deep_view()[k] == t);
                        }
                    }
                    lemma_count_absent(pre, t);
                }
                let ghost before = counts@;
                counts.push(0);
                assert(counts@.drop_last() =~= before);
            }
            proof {
                assert(ws1.len() == counts@.len());
                assert forall|i: int| 0 <= i < ws0.len() implies ws1[i] == ws0[i] by {
                    if ws0.contains(t) {
                        assert(ws1 =~= ws0);
                    } else {
                        assert(ws1 =~= ws0.push(t));
                    }
                }
            }
            let ghost before = counts@;
            let c = counts[idx];
            counts.set(idx, c + 1);
            proof {
                lemma_sum_update(before, idx as int, (c + 1) as u64);
                assert forall|i: int| 0 <= i < ws1.len() && i != idx implies ws1[i] != t by {
                    assert(ws1[i] != ws1[idx as int]);
                }
                assert forall|k: int| 0 <= k < j + 1 implies ws1.contains(ts.deep_view()[k]) by {
                    if k < j {
                        assert(ws0.contains(ts.deep_view()[k]));
                        let m = choose|m: int| 0 <= m < ws0.len() && ws0[m] == ts.deep_view()[k];
                        assert(ws1[m] == ts.deep_view()[k]);
                    } else {
                        assert(ws1[idx as int] == t);
                    }
                }
            }
            total = total + 1;
            j = j + 1;
        }
        assert(ts.deep_view().take(ts@.len() as int) =~= ts.deep_view());
        TfVector { counts, total }
    }

    fn flat_of_tokens(&self, ts: &Vec<String>) -> (r: TfVector)
        requires
            self.wf(),
            ts@.len() <= MAX_TERMS,
        ensures
            r.wf(),
            r.counts@.len() == self.entries().len(),
            forall|i: int|
                0 <= i < r.counts@.len() ==> r.counts@[i] == count_in(
                    ts.deep_view(),
                    self.words()[i],
                ),
            r.total == known_in(ts.deep_view(), self.words()),
    {
        let n = self.len();
        let ghost ws = self.words();
        let mut counts: Vec<u64> = Vec::new();
        let mut k: usize = 0;
        while k < n
            invariant
                k <= n,
                n == ws.len(),
                counts@.len() == k,
                forall|i: int| 0 <= i < k ==> counts@[i] == 0,
                sum_of(counts@) == 0,
            decreases n - k,
        {
            let ghost before = counts@;
            counts.push(0);
            assert(counts@.drop_last() =~= before);
            k = k + 1;
        }
        let mut total: u64 = 0;
        let mut j: usize = 0;
        while j < ts.len()
            invariant
                self.wf(),
                ws == self.words(),
                n == ws.len(),
                ts@.len() <= MAX_TERMS,
                j <= ts@.len(),
                counts@.len() == n,
                forall|i: int|
                    0 <= i < n ==> counts@[i] == count_in(ts.deep_view().take(j as int), ws[i]),
                forall|i: int| 0 <= i < n ==> counts@[i] <= total,
                total == known_in(ts.deep_view().take(j as int), ws),
                total == sum_of(counts@),
                total <= j,
            decreases ts@.len() - j,
        {
            let ghost pre = ts.deep_view().take(j as int);
            let ghost post = ts.deep_view().take(j + 1);
            assert(post.drop_last() =~= pre);
            assert(post.last() == ts@[j as int]@);
            match self.find(&ts[j]) {
                Some(idx) => {
                    let ghost before = counts@;
                    let c = counts[idx];
                    counts.set(idx, c + 1);
                    proof {
                        lemma_sum_update(before, idx as int, (c + 1) as u64);
                        assert forall|i: int| 0 <= i < n && i != idx implies ws[i] != ts@[j as int]@ by {
                            assert(ws[i] != ws[idx as int]);
                        }
                        assert(ws.contains(ts@[j as int]@));
                    }
                    total = total + 1;
                },
                None => {},
            }
            j = j + 1;
        }
        assert(ts.deep_view().take(ts@.len() as int) =~= ts.deep_view());
        TfVector { counts, total }
    }
}

} // verus!
