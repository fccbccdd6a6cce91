//! The searchable index: keys queued by `insert`, folded in by `finalize`
//! (near-duplicates share one group of values), then ranked by cosine
//! similarity against a query.
use vstd::prelude::*;
use crate::cosine::{
    cos_above, cos_equal, dot, dot_of, is_similar, lemma_cos_trans, lemma_dot_pos,
    lemma_dot_pos_norms, norm_sq, similar,
};
use crate::cosine::lemma_dot_bound;
use crate::fuzzy::{fit_tokens, fitted};
use crate::grammar::{
    add_tokens, count_in, Grammar, TfVector, VectorInput, MAX_TERMS,
};
use crate::text::{tokenize, tokens_of};

verus! {

/// The counts that the tokens `ts` give over the words `ws`, one per word.
pub open spec fn flat_counts(ts: Seq<Seq<char>>, ws: Seq<Seq<char>>) -> Seq<u64> {
    Seq::new(ws.len(), |i: int| count_in(ts, ws[i]) as u64)
}

/// The first key, from index `i` on, that `v` is similar to; the number of
/// keys when there is none.
pub open spec fn place_from(keys: Seq<Seq<u64>>, v: Seq<u64>, num: int, den: int, i: int) -> int
    decreases keys.len() - i,
{
    if i >= keys.len() {
        keys.len() as int
    } else if similar(keys[i], v, num, den) {
        i
    } else {
        place_from(keys, v, num, den, i + 1)
    }
}

/// Keys and groups after one vector `v` with its value is folded in: the value
/// joins the group of the first similar key, or `v` becomes a new key with a
/// group of its own.
pub open spec fn absorb<V>(
    st: (Seq<Seq<u64>>, Seq<Seq<V>>),
    v: Seq<u64>,
    val: V,
    num: int,
    den: int,
) -> (Seq<Seq<u64>>, Seq<Seq<V>>) {
    let p = place_from(st.0, v, num, den, 0);
    if p < st.0.len() {
        (st.0, st.1.update(p, st.1[p].push(val)))
    } else {
        (st.0.push(v), st.1.push(seq![val]))
    }
}

/// Keys and groups after the queued `(key, value)` pairs `ps` are folded in,
/// in order, each key vectorized over the words `ws`.
pub open spec fn absorb_all<V>(
    st: (Seq<Seq<u64>>, Seq<Seq<V>>),
    ps: Seq<(Seq<char>, V)>,
    ws: Seq<Seq<char>>,
    num: int,
    den: int,
) -> (Seq<Seq<u64>>, Seq<Seq<V>>)
    decreases ps.len(),
{
    if ps.len() == 0 {
        st
    } else {
        absorb(
            absorb_all(st, ps.drop_last(), ws, num, den),
            flat_counts(tokens_of(ps.last().0), ws),
            ps.last().1,
            num,
            den,
        )
    }
}

/// Near-duplicate merge: two keys queued on an empty index whose vectors reach
/// the similarity threshold end up in a single group holding both values, in
/// the order of insertion.
pub proof fn lemma_near_duplicates_merge<V>(
    a: Seq<char>,
    va: V,
    b: Seq<char>,
    vb: V,
    ws: Seq<Seq<char>>,
    num: int,
    den: int,
)
    requires
        similar(flat_counts(tokens_of(a), ws), flat_counts(tokens_of(b), ws), num, den),
    ensures
        absorb_all(
            (Seq::<Seq<u64>>::empty(), Seq::<Seq<V>>::empty()),
            seq![(a, va), (b, vb)],
            ws,
            num,
            den,
        ).1 == seq![seq![va, vb]],
{
    let st0 = (Seq::<Seq<u64>>::empty(), Seq::<Seq<V>>::empty());
    let ps = seq![(a, va), (b, vb)];
    assert(ps.drop_last() =~= seq![(a, va)]);
    assert(seq![(a, va)].drop_last() =~= Seq::<(Seq<char>, V)>::empty());
    let va_vec = flat_counts(tokens_of(a), ws);
    assert(absorb_all(st0, Seq::<(Seq<char>, V)>::empty(), ws, num, den) == st0);
    assert(place_from(st0.0, va_vec, num, den, 0) == 0);
    let st1 = absorb_all(st0, seq![(a, va)], ws, num, den);
    assert(st1 == absorb(st0, va_vec, va, num, den));
    assert(st1.0 =~= seq![va_vec]);
    assert(st1.1 =~= seq![seq![va]]);
    assert(place_from(st1.0, flat_counts(tokens_of(b), ws), num, den, 0) == 0);
    let st2 = absorb_all(st0, ps, ws, num, den);
    assert(st2 == absorb(st1, flat_counts(tokens_of(b), ws), vb, num, den));
    assert(st2.1 == st1.1.update(0, st1.1[0].push(vb)));
    assert(st1.1[0].push(vb) =~= seq![va, vb]);
    assert(st2.1 =~= seq![seq![va, vb]]);
}

/// At most the first `MAX_TERMS` of the terms `f`.
pub open spec fn capped(f: Seq<Seq<char>>) -> Seq<Seq<char>> {
    if f.len() <= MAX_TERMS {
        f
    } else {
        f.take(MAX_TERMS as int)
    }
}

/// Whether key `k` can answer the query `q`: they share a counted word.
pub open spec fn is_candidate(kc: Seq<Seq<u64>>, q: Seq<u64>, k: int) -> bool {
    0 <= k < kc.len() && dot(q, kc[k]) > 0
}

/// Whether key `a` ranks before key `b` for the query `q`: a higher cosine,
/// or the same cosine and an earlier key.
pub open spec fn ranks_before(kc: Seq<Seq<u64>>, q: Seq<u64>, a: int, b: int) -> bool {
    let da = dot(q, kc[a]);
    let db = dot(q, kc[b]);
    let na = norm_sq(kc[a]);
    let nb = norm_sq(kc[b]);
    cos_above(da, na, db, nb) || (cos_equal(da, na, db, nb) && a < b)
}

/// `full` lists every candidate key for `q` once, best first.
pub open spec fn ranked_all(kc: Seq<Seq<u64>>, q: Seq<u64>, full: Seq<int>) -> bool {
    &&& full.no_duplicates()
    &&& forall|k: int| full.contains(k) <==> is_candidate(kc, q, k)
    &&& forall|a: int, b: int|
        0 <= a < b < full.len() ==> ranks_before(kc, q, #[trigger] full[a], #[trigger] full[b])
}

/// Whether `x` is the score of key `k` for the query `q`.
pub open spec fn scores(kc: Seq<Seq<u64>>, q: Seq<u64>, k: int, x: Score) -> bool {
    &&& x.dot == dot(q, kc[k])
    &&& x.query_norm_sq == norm_sq(q)
    &&& x.key_norm_sq == norm_sq(kc[k])
}

pub open spec fn min_len(max: usize, n: nat) -> int {
    if max < n {
        max as int
    } else {
        n as int
    }
}

pub proof fn lemma_ranks_trans(kc: Seq<Seq<u64>>, q: Seq<u64>, a: int, b: int, c: int)
    requires
        is_candidate(kc, q, a),
        is_candidate(kc, q, b),
        is_candidate(kc, q, c),
        ranks_before(kc, q, a, b),
        ranks_before(kc, q, b, c),
    ensures
        ranks_before(kc, q, a, c),
{
    lemma_dot_pos_norms(q, kc[a]);
    lemma_dot_pos_norms(q, kc[b]);
    lemma_dot_pos_norms(q, kc[c]);
    lemma_cos_trans(
        dot(q, kc[a]),
        norm_sq(kc[a]),
        dot(q, kc[b]),
        norm_sq(kc[b]),
        dot(q, kc[c]),
        norm_sq(kc[c]),
    );
}

/// Whether the index `i` occurs in `s`.
pub open spec fn listed(s: Seq<usize>, i: int) -> bool {
    exists|w: int| 0 <= w < s.len() && s[w] as int == i
}

/// Whether `q` and `c` both count some word below index `t`.
pub open spec fn hit_below(q: Seq<u64>, c: Seq<u64>, t: int) -> bool {
    exists|i: int| 0 <= i < t && i < q.len() && i < c.len() && q[i] > 0 && c[i] > 0
}

/// The key indices of a ranked list.
pub open spec fn hit_keys(out: Seq<(usize, Score)>) -> Seq<usize> {
    Seq::new(out.len(), |i: int| out[i].0)
}

/// Whether the key with dot product `d1`, squared norm `n1` and index `k1`
/// ranks before the key with `d2`, `n2`, `k2` against one query.
fn ranks_above(d1: u64, n1: u64, k1: usize, d2: u64, n2: u64, k2: usize) -> (r: bool)
    requires
        d1 <= MAX_TERMS * MAX_TERMS,
        d2 <= MAX_TERMS * MAX_TERMS,
        n1 <= MAX_TERMS * MAX_TERMS,
        n2 <= MAX_TERMS * MAX_TERMS,
    ensures
        r == (cos_above(d1 as int, n1 as int, d2 as int, n2 as int) || (cos_equal(
            d1 as int,
            n1 as int,
            d2 as int,
            n2 as int,
        ) && k1 < k2)),
{
    assert((d1 as int) * (d1 as int) <= 0x1_0000_0000_0000_0000_0000) by (nonlinear_arith)
        requires
            d1 <= MAX_TERMS * MAX_TERMS,
    ;
    assert((d2 as int) * (d2 as int) <= 0x1_0000_0000_0000_0000_0000) by (nonlinear_arith)
        requires
            d2 <= MAX_TERMS * MAX_TERMS,
    ;
    let a2 = (d1 as u128) * (d1 as u128);
    let b2 = (d2 as u128) * (d2 as u128);
    assert(a2 * n2 <= 0x1_0000_0000_0000_0000_0000 * 0x100_0000_0000) by (nonlinear_arith)
        requires
            a2 <= 0x1_0000_0000_0000_0000_0000,
            n2 <= 0x100_0000_0000,
    ;
    assert(b2 * n1 <= 0x1_0000_0000_0000_0000_0000 * 0x100_0000_0000) by (nonlinear_arith)
        requires
            b2 <= 0x1_0000_0000_0000_0000_0000,
            n1 <= 0x100_0000_0000,
    ;
    let left = a2 * (n2 as u128);
    let right = b2 * (n1 as u128);
    left > right || (left == right && k1 < k2)
}

/// A cosine similarity kept exact: `dot / sqrt(query_norm_sq * key_norm_sq)`,
/// zero when either norm is zero.
#[derive(Clone, Copy, Debug, PartialEq, Eq)]
pub struct Score {
    pub dot: u64,
    pub query_norm_sq: u64,
    pub key_norm_sq: u64,
}

/// Whether `r` (each group's values, with its score) is what `search` gives
/// for `query` and `max` on `di`.
pub open spec fn searched<V: Copy>(di: Di<V>, query: Seq<char>, max: usize, r: Seq<(Seq<V>, Score)>) -> bool {
    let ws = di.grammar.words();
    let q = flat_counts(capped(fitted(tokens_of(query), ws)), ws);
    exists|full: Seq<int>|
        ranked_all(di.key_counts(), q, full) && r.len() == min_len(max, full.len()) && forall|j: int|
            0 <= j < r.len() ==> r[j].0 == di.groups()[full[j]] && scores(di.key_counts(), q, full[j], r[j].1)
}

/// Two lists that each hold the members of `s` once, best first, are the same list.
pub proof fn lemma_ranking_unique(kc: Seq<Seq<u64>>, q: Seq<u64>, f1: Seq<int>, f2: Seq<int>, s: Set<int>)
    requires
        f1.no_duplicates(),
        f2.no_duplicates(),
        forall|k: int| f1.contains(k) <==> s.contains(k),
        forall|k: int| f2.contains(k) <==> s.contains(k),
        forall|a: int, b: int| 0 <= a < b < f1.len() ==> ranks_before(kc, q, #[trigger] f1[a], #[trigger] f1[b]),
        forall|a: int, b: int| 0 <= a < b < f2.len() ==> ranks_before(kc, q, #[trigger] f2[a], #[trigger] f2[b]),
    ensures
        f1 == f2,
    decreases f1.len(),
{
    if f1.len() == 0 {
        if f2.len() > 0 {
            assert(f2.contains(f2[0]));
            assert(!f1.contains(f2[0]));
        }
        assert(f1 =~= f2);
    } else {
        assert(f1.contains(f1[0]));
        assert(f2.len() > 0);
        assert(f2.contains(f2[0]));
        let x = f1[0];
        let y = f2[0];
        if x != y {
            let i = choose|i: int| 0 <= i < f2.len() && f2[i] == x;
            let j = choose|j: int| 0 <= j < f1.len() && f1[j] == y;
            assert(i > 0 && j > 0);
            assert(ranks_before(kc, q, f2[0], f2[i]));
            assert(ranks_before(kc, q, f1[0], f1[j]));
        }
        let g1 = f1.drop_first();
        let g2 = f2.drop_first();
        let t = s.remove(x);
        assert forall|k: int| g1.contains(k) <==> t.contains(k) by {
            if g1.contains(k) {
                let w = choose|w: int| 0 <= w < g1.len() && g1[w] == k;
                assert(f1[w + 1] == k);
                assert(f1.contains(k));
            }
            if t.contains(k) {
                assert(f1.contains(k));
                let w = choose|w: int| 0 <= w < f1.len() && f1[w] == k;
                assert(w != 0);
                assert(g1[w - 1] == k);
            }
        }
        assert forall|k: int| g2.contains(k) <==> t.contains(k) by {
            if g2.contains(k) {
                let w = choose|w: int| 0 <= w < g2.len() && g2[w] == k;
                assert(f2[w + 1] == k);
                assert(f2.contains(k));
                assert(k != y);
            }
            if t.contains(k) {
                assert(f2.contains(k));
                let w = choose|w: int| 0 <= w < f2.len() && f2[w] == k;
                assert(w != 0);
                assert(g2[w - 1] == k);
            }
        }
        assert forall|a: int, b: int| 0 <= a < b < g1.len() implies ranks_before(kc, q, #[trigger] g1[a], #[trigger] g1[b]) by {
            assert(g1[a] == f1[a + 1] && g1[b] == f1[b + 1]);
        }
        assert forall|a: int, b: int| 0 <= a < b < g2.len() implies ranks_before(kc, q, #[trigger] g2[a], #[trigger] g2[b]) by {
            assert(g2[a] == f2[a + 1] && g2[b] == f2[b + 1]);
        }
        lemma_ranking_unique(kc, q, g1, g2, t);
        assert(f1 =~= seq![x] + g1);
        assert(f2 =~= seq![y] + g2);
    }
}

/// A search depends on the index only through its vocabulary, keys and
/// groups: two indexes that agree on these give the same result for every
/// query.
pub proof fn lemma_search_determined<V: Copy>(
    d1: Di<V>,
    d2: Di<V>,
    query: Seq<char>,
    max: usize,
    r1: Seq<(Seq<V>, Score)>,
    r2: Seq<(Seq<V>, Score)>,
)
    requires
        d1.grammar.entries() == d2.grammar.entries(),
        d1.key_counts() == d2.key_counts(),
        d1.groups() == d2.groups(),
        searched(d1, query, max, r1),
        searched(d2, query, max, r2),
    ensures
        r1 == r2,
{
    let ws = d1.grammar.words();
    assert(ws == d2.grammar.words());
    let q = flat_counts(capped(fitted(tokens_of(query), ws)), ws);
    let kc = d1.key_counts();
    let full1 = choose|full: Seq<int>|
        ranked_all(kc, q, full) && r1.len() == min_len(max, full.len()) && forall|j: int|
            0 <= j < r1.len() ==> r1[j].0 == d1.groups()[full[j]] && scores(kc, q, full[j], r1[j].1);
    let ws2 = d2.grammar.words();
    let q2 = flat_counts(capped(fitted(tokens_of(query), ws2)), ws2);
    assert(q2 == q);
    let full2 = choose|full: Seq<int>|
        ranked_all(d2.key_counts(), q2, full) && r2.len() == min_len(max, full.len()) && forall|j: int|
            0 <= j < r2.len() ==> r2[j].0 == d2.groups()[full[j]] && scores(d2.key_counts(), q2, full[j], r2[j].1);
    let s = Set::new(|k: int| is_candidate(kc, q, k));
    lemma_ranking_unique(kc, q, full1, full2, s);
    assert(full1 == full2);
    assert(r1.len() == r2.len());
    assert forall|j: int| 0 <= j < r1.len() implies r1[j] == r2[j] by {
        assert(r1[j].0 == d1.groups()[full1[j]]);
        assert(r2[j].0 == d2.groups()[full2[j]]);
        assert(scores(kc, q, full1[j], r1[j].1));
        assert(scores(kc, q, full1[j], r2[j].1));
        assert(r1[j].1 == r2[j].1);
    }
    assert(r1 =~= r2);
}

/// `new` is `old` with `key` and `value` queued by `insert`.
pub open spec fn queued<V: Copy>(old: Di<V>, new: Di<V>, key: Seq<char>, value: V) -> bool {
    &&& new.wf()
    &&& new.grammar.entries() == add_tokens(old.grammar.entries(), tokens_of(key))
    &&& new.pending_view() == old.pending_view().push((key, value))
    &&& new.key_counts() == old.key_counts()
    &&& new.groups() == old.groups()
    &&& new.eps_num == old.eps_num
    &&& new.eps_den == old.eps_den
}

/// A finalized key: its vector and the vector's squared norm.
pub struct KeyVector {
    pub vector: TfVector,
    pub norm_sq: u64,
}

impl KeyVector {
    pub open spec fn wf(&self) -> bool {
        &&& self.vector.wf()
        &&& self.norm_sq == norm_sq(self.vector.counts@)
    }
}

/// A fuzzy search index from text keys to values of type `V`.
pub struct Di<V> {
    pub pending: Vec<(String, V)>,
    pub keys: Vec<KeyVector>,
    pub values: Vec<Vec<V>>,
    pub postings: Vec<Vec<usize>>,
    pub grammar: Grammar,
    pub eps_num: u16,
    pub eps_den: u16,
}

impl<V: Copy> Di<V> {
    /// The vectors of the finalized keys.
    pub open spec fn key_counts(&self) -> Seq<Seq<u64>> {
        Seq::new(self.keys@.len(), |k: int| self.keys@[k].vector.counts@)
    }

    /// The group of values of each finalized key.
    pub open spec fn groups(&self) -> Seq<Seq<V>> {
        Seq::new(self.values@.len(), |k: int| self.values@[k]@)
    }

    /// The insertions not yet finalized, oldest first.
    pub open spec fn pending_view(&self) -> Seq<(Seq<char>, V)> {
        Seq::new(self.pending@.len(), |i: int| (self.pending@[i].0@, self.pending@[i].1))
    }

    pub open spec fn postings_ok(&self) -> bool {
        &&& forall|t: int, m: int|
            0 <= t < self.postings@.len() && 0 <= m < self.postings@[t]@.len() ==> {
                let k = #[trigger] self.postings@[t]@[m] as int;
                &&& 0 <= k < self.keys@.len()
                &&& t < self.keys@[k].vector.counts@.len()
                &&& self.keys@[k].vector.counts@[t] > 0
            }
        &&& forall|k: int, t: int|
            0 <= k < self.keys@.len() && 0 <= t < self.keys@[k].vector.counts@.len()
                && #[trigger] self.keys@[k].vector.counts@[t] > 0 ==> self.postings@[t]@.contains(
                k as usize,
            )
    }

    /// The index's invariant.
    pub open spec fn wf(&self) -> bool {
        &&& self.grammar.wf()
        &&& self.eps_den > 0
        &&& self.keys@.len() == self.values@.len()
        &&& forall|k: int| 0 <= k < self.keys@.len() ==> #[trigger] self.keys@[k].wf()
        &&& forall|k: int|
            0 <= k < self.keys@.len() ==> #[trigger] self.keys@[k].vector.counts@.len()
                <= self.postings@.len()
        &&& self.postings_ok()
        &&& forall|i: int| 0 <= i < self.pending@.len() ==> #[trigger] self.pending@[i].0@.len() <= MAX_TERMS
    }

    /// An empty index whose near-duplicate threshold is `eps_num / eps_den`.
    pub fn new(eps_num: u16, eps_den: u16) -> (r: Di<V>)
        requires
            eps_den > 0,
        ensures
            r.wf(),
            r.eps_num == eps_num,
            r.eps_den == eps_den,
            r.key_counts().len() == 0,
            r.groups().len() == 0,
            r.pending_view().len() == 0,
            r.grammar.entries().len() == 0,
    {
        Di {
            pending: Vec::new(),
            keys: Vec::new(),
            values: Vec::new(),
            postings: Vec::new(),
            grammar: Grammar::new(),
            eps_num,
            eps_den,
        }
    }

    /// Queues `key` with `value`. The key's tokens are fed to the vocabulary
    /// at once; the key takes part in searches after the next `finalize`.
    pub fn insert(&mut self, key: &str, value: V)
        requires
            old(self).wf(),
            key@.len() <= MAX_TERMS,
        ensures
            final(self).wf(),
            final(self).grammar.entries() == add_tokens(
                old(self).grammar.entries(),
                tokens_of(key@),
            ),
            final(self).pending_view() == old(self).pending_view().push((key@, value)),
            final(self).key_counts() == old(self).key_counts(),
            final(self).groups() == old(self).groups(),
            final(self).eps_num == old(self).eps_num,
            final(self).eps_den == old(self).eps_den,
    {
        let k: String = key.to_owned();
        let input = VectorInput::Text(k.clone());
        let _ = self.grammar.transform(&input);
        self.pending.push((k, value));
        assert(self.pending_view() =~= old(self).pending_view().push((key@, value)));
        assert(self.key_counts() =~= old(self).key_counts());
        assert(self.groups() =~= old(self).groups());
    }
}

impl<V: Copy> Di<V> {
    /// The first finalized key that `v` is similar to; the number of keys when
    /// there is none.
    fn find_similar(&self, v: &TfVector, vn: u64) -> (r: usize)
        requires
            self.wf(),
            v.wf(),
            vn == norm_sq(v.counts@),
        ensures
            r == place_from(
                self.key_counts(),
                v.counts@,
                self.eps_num as int,
                self.eps_den as int,
                0,
            ),
    {
        let mut i: usize = 0;
        while i < self.keys.len()
            invariant
                self.wf(),
                v.wf(),
                vn == norm_sq(v.counts@),
                i <= self.keys@.len(),
                place_from(self.key_counts(), v.counts@, self.eps_num as int, self.eps_den as int, 0)
                    == place_from(
                    self.key_counts(),
                    v.counts@,
                    self.eps_num as int,
                    self.eps_den as int,
                    i as int,
                ),
            decreases self.keys@.len() - i,
        {
            assert(self.keys@[i as int].wf());
            if is_similar(
                &self.keys[i].vector,
                self.keys[i].norm_sq,
                v,
                vn,
                self.eps_num,
                self.eps_den,
            ) {
                return i;
            }
            i = i + 1;
        }
        i
    }

    /// Makes `v` a new key with the group `[value]`, and lists the key under
    /// each word that it counts.
    fn add_key(&mut self, v: TfVector, vn: u64, value: V)
        requires
            old(self).wf(),
            v.wf(),
            vn == norm_sq(v.counts@),
            v.counts@.len() <= old(self).postings@.len(),
        ensures
            final(self).wf(),
            final(self).key_counts() == old(self).key_counts().push(v.counts@),
            final(self).groups() == old(self).groups().push(seq![value]),
            final(self).grammar == old(self).grammar,
            final(self).pending == old(self).pending,
            final(self).postings@.len() == old(self).postings@.len(),
            final(self).eps_num == old(self).eps_num,
            final(self).eps_den == old(self).eps_den,
    {
        let k = self.keys.len();
        let n = v.counts.len();
        let ghost counts = v.counts@;
        self.keys.push(KeyVector { vector: v, norm_sq: vn });
        self.values.push(vec![value]);
        assert(self.values@[k as int]@ =~= seq![value]);
        assert(self.key_counts() =~= old(self).key_counts().push(counts));
        assert(self.groups() =~= old(self).groups().push(seq![value]));
        assert forall|j: int| 0 <= j <= k implies #[trigger] self.keys@[j].vector.counts@.len()
            <= self.postings@.len() by {
            if j < k {
                assert(old(self).keys@[j].wf());
            }
        }
        let mut t: usize = 0;
        while t < n
            invariant
                k == old(self).keys@.len(),
                self.keys@.len() == k + 1,
                self.keys@.len() == self.values@.len(),
                n == counts.len(),
                n <= self.postings@.len(),
                t <= n,
                self.keys@[k as int].vector.counts@ == counts,
                forall|j: int| 0 <= j < k ==> self.keys@[j] == old(self).keys@[j],
                forall|j: int| 0 <= j <= k ==> #[trigger] self.keys@[j].wf(),
                forall|j: int| 0 <= j <= k ==> #[trigger] self.keys@[j].vector.counts@.len() <= self.postings@.len(),
                self.postings@.len() == old(self).postings@.len(),
                self.grammar == old(self).grammar,
                self.pending == old(self).pending,
                self.eps_num == old(self).eps_num,
                self.eps_den == old(self).eps_den,
                self.key_counts() == old(self).key_counts().push(counts),
                self.groups() == old(self).groups().push(seq![value]),
                forall|tt: int, m: int|
                    0 <= tt < self.postings@.len() && 0 <= m < self.postings@[tt]@.len() ==> {
                        let kk = #[trigger] self.postings@[tt]@[m] as int;
                        &&& 0 <= kk < self.keys@.len()
                        &&& tt < self.keys@[kk].vector.counts@.len()
                        &&& self.keys@[kk].vector.counts@[tt] > 0
                    },
                forall|kk: int, tt: int|
                    0 <= kk < k && 0 <= tt < self.keys@[kk].vector.counts@.len()
                        && #[trigger] self.keys@[kk].vector.counts@[tt] > 0
                        ==> self.postings@[tt]@.contains(kk as usize),
                forall|tt: int| 0 <= tt < t && counts[tt] > 0 ==> self.postings@[tt]@.contains(k),
            decreases n - t,
        {
            if self.keys[k].vector.counts[t] > 0 {
                let ghost before = self.postings@;
                self.postings[t].push(k);
                proof {
                    assert(self.postings@[t as int]@ == before[t as int]@.push(k));
                    assert(self.postings@[t as int]@[before[t as int]@.len() as int] == k);
                    assert forall|tt: int, x: usize|
                        0 <= tt < before.len() && #[trigger] before[tt]@.contains(x)
                        implies self.postings@[tt]@.contains(x) by {
                        if tt == t {
                            let m = choose|m: int| 0 <= m < before[tt]@.len() && before[tt]@[m] == x;
                            assert(self.postings@[tt]@[m] == x);
                        }
                    }
                }
            }
            t = t + 1;
        }
    }

    /// Folds every queued insertion into the index, oldest first: the key is
    /// vectorized over the vocabulary as it now stands; its value joins the
    /// group of the first finalized key whose cosine with it reaches the
    /// threshold, or else the key becomes a new key with a group of its own.
    /// The queue is left empty; an empty queue changes nothing.
    pub fn finalize(&mut self)
        requires
            old(self).wf(),
        ensures
            final(self).wf(),
            (final(self).key_counts(), final(self).groups()) == absorb_all(
                (old(self).key_counts(), old(self).groups()),
                old(self).pending_view(),
                old(self).grammar.words(),
                old(self).eps_num as int,
                old(self).eps_den as int,
            ),
            final(self).pending_view().len() == 0,
            final(self).grammar == old(self).grammar,
            final(self).eps_num == old(self).eps_num,
            final(self).eps_den == old(self).eps_den,
    {
        while self.postings.len() < self.grammar.len()
            invariant
                self.wf(),

                self.grammar == old(self).grammar,
                self.pending == old(self).pending,
                self.keys == old(self).keys,
                self.values == old(self).values,
                self.eps_num == old(self).eps_num,
                self.eps_den == old(self).eps_den,
            decreases self.grammar.entries().len() - self.postings@.len(),
        {
            let ghost before = self.postings@;
            self.postings.push(Vec::new());
            proof {
                assert(self.postings@[before.len() as int]@.len() == 0);
                assert forall|tt: int, m: int|
                    0 <= tt < self.postings@.len() && 0 <= m < self.postings@[tt]@.len() implies {
                        let kk = #[trigger] self.postings@[tt]@[m] as int;
                        &&& 0 <= kk < self.keys@.len()
                        &&& tt < self.keys@[kk].vector.counts@.len()
                        &&& self.keys@[kk].vector.counts@[tt] > 0
                    } by {
                    assert(tt < before.len());
                    assert(self.postings@[tt] == before[tt]);
                    assert(before[tt]@[m] == self.postings@[tt]@[m]);
                }
                assert forall|k: int|
                    0 <= k < self.keys@.len() implies #[trigger] self.keys@[k].vector.counts@.len()
                    <= self.postings@.len() by {
                    assert(self.keys@[k].wf());
                }
                assert forall|tt: int, x: usize|
                    0 <= tt < before.len() && #[trigger] before[tt]@.contains(x)
                    implies self.postings@[tt]@.contains(x) by {
                    assert(self.postings@[tt] == before[tt]);
                }
                assert forall|k: int, t: int|
                    0 <= k < self.keys@.len() && 0 <= t < self.keys@[k].vector.counts@.len()
                        && #[trigger] self.keys@[k].vector.counts@[t] > 0 implies self.postings@[t]@.contains(
                        k as usize,
                    ) by {
                    assert(self.keys@[k].vector.counts@.len() <= before.len());
                    assert(before[t]@.contains(k as usize));
                }
            }
        }
        let ghost ws = self.grammar.words();
        let ghost num = self.eps_num as int;
        let ghost den = self.eps_den as int;
        let ghost ps = old(self).pending_view();
        let ghost st0 = (old(self).key_counts(), old(self).groups());
        let mut pending: Vec<(String, V)> = Vec::new();
        std::mem::swap(&mut pending, &mut self.pending);
        assert(self.key_counts() =~= old(self).key_counts());
        assert(self.groups() =~= old(self).groups());
        assert(ps.take(0) =~= Seq::<(Seq<char>, V)>::empty());
        let mut j: usize = 0;
        while j < pending.len()
            invariant
                self.wf(),
                self.pending@.len() == 0,
                self.grammar == old(self).grammar,
                ws == self.grammar.words(),
                self.grammar.entries().len() <= self.postings@.len(),
                num == self.eps_num,
                den == self.eps_den,
                self.eps_num == old(self).eps_num,
                self.eps_den == old(self).eps_den,
                j <= pending@.len(),
                ps == Seq::new(pending@.len(), |i: int| (pending@[i].0@, pending@[i].1)),
                forall|i: int| 0 <= i < pending@.len() ==> #[trigger] pending@[i].0@.len() <= MAX_TERMS,
                (self.key_counts(), self.groups()) == absorb_all(st0, ps.take(j as int), ws, num, den),
            decreases pending@.len() - j,
        {
            let ghost pre = ps.take(j as int);
            assert(ps.take(j + 1).drop_last() =~= pre);
            assert(ps.take(j + 1).last() == ps[j as int]);
            let key = pending[j].0.clone();
            let value = pending[j].1;
            assert(pending@[j as int].0@.len() <= MAX_TERMS);
            let input = VectorInput::Text(key);
            let v = self.grammar.transform_flat(&input);
            assert(v.counts@ =~= flat_counts(tokens_of(ps[j as int].0), ws));
            let vn = dot_of(&v, &v);
            let p = self.find_similar(&v, vn);
            if p < self.keys.len() {
                let ghost before = self.values@;
                self.values[p].push(value);
                proof {
                    assert(self.key_counts() =~= absorb_all(st0, ps.take(j + 1), ws, num, den).0);
                    assert(self.groups() =~= absorb_all(st0, ps.take(j + 1), ws, num, den).1);
                }
            } else {
                self.add_key(v, vn, value);
            }
            j = j + 1;
        }
        assert(ps.take(pending@.len() as int) =~= ps);
        assert(self.pending_view() =~= Seq::<(Seq<char>, V)>::empty());
    }
}

impl<V: Copy> Di<V> {
    /// The keys that share a counted word with `q`, in increasing order,
    /// gathered from the postings of the words that `q` counts.
    fn candidates(&self, q: &TfVector) -> (r: Vec<usize>)
        requires
            self.wf(),
        ensures
            forall|a: int, b: int| 0 <= a < b < r@.len() ==> r@[a] < r@[b],
            forall|k: int| listed(r@, k) <==> is_candidate(self.key_counts(), q.counts@, k),
    {
        let n = self.keys.len();
        let ghost kc = self.key_counts();
        let ghost qc = q.counts@;
        let mut seen: Vec<bool> = Vec::new();
        let mut k: usize = 0;
        while k < n
            invariant
                k <= n,
                seen@.len() == k,
                forall|i: int| 0 <= i < k ==> !seen@[i],
            decreases n - k,
        {
            seen.push(false);
            k = k + 1;
        }
        let tmax = if q.counts.len() <= self.postings.len() {
            q.counts.len()
        } else {
            self.postings.len()
        };
        let mut t: usize = 0;
        while t < tmax
            invariant
                self.wf(),
                kc == self.key_counts(),
                qc == q.counts@,
                n == kc.len(),
                tmax <= qc.len(),
                tmax <= self.postings@.len(),
                t <= tmax,
                seen@.len() == n,
                forall|i: int| 0 <= i < n ==> (seen@[i] <==> hit_below(qc, kc[i], t as int)),
            decreases tmax - t,
        {
            let ghost ps = self.postings@[t as int]@;
            if q.counts[t] > 0 {
                let ghost before = seen@;
                let mut m: usize = 0;
                while m < self.postings[t].len()
                    invariant
                        self.wf(),
                        kc == self.key_counts(),
                        n == kc.len(),
                        t < tmax,
                        tmax <= self.postings@.len(),
                        ps == self.postings@[t as int]@,
                        m <= ps.len(),
                        seen@.len() == n,
                        before.len() == n,
                        forall|i: int| 0 <= i < n ==> (seen@[i] <==> (before[i] || listed(ps.take(m as int), i))),
                    decreases ps.len() - m,
                {
                    let kk = self.postings[t][m];
                    proof {
                        assert(0 <= ps[m as int] < self.keys@.len());
                    }
                    let ghost s0 = seen@;
                    seen.set(kk, true);
                    proof {
                        assert(seen@ == s0.update(kk as int, true));
                        let seen_part = ps.take(m as int);
                        let seen_next = ps.take(m + 1);
                        assert(seen_next =~= seen_part.push(kk));
                        assert forall|i: int| 0 <= i < n implies (seen@[i] <==> (before[i] || listed(seen_next, i))) by {
                            assert(s0[i] <==> (before[i] || listed(seen_part, i)));
                            if listed(seen_part, i) {
                                let w = choose|w: int| 0 <= w < seen_part.len() && seen_part[w] as int == i;
                                assert(seen_next[w] as int == i);
                            }
                            if i == kk as int {
                                assert(seen_next[m as int] as int == i);
                            } else if listed(seen_next, i) {
                                let w = choose|w: int| 0 <= w < seen_next.len() && seen_next[w] as int == i;
                                assert(seen_part[w] as int == i);
                            }
                        }
                    }
                    m = m + 1;
                }
                proof {
                    let pm = ps.take(m as int);
                    assert(pm =~= ps);
                    assert forall|i: int| 0 <= i < n implies (seen@[i] <==> (before[i] || listed(ps, i))) by {
                        assert(seen@[i] <==> (before[i] || listed(pm, i)));
                    }
                    assert forall|i: int| 0 <= i < n implies (before[i] <==> hit_below(qc, kc[i], t as int)) by {}
                    assert forall|i: int| 0 <= i < n implies (seen@[i] <==> hit_below(qc, kc[i], t + 1)) by {
                        assert(seen@[i] <==> (before[i] || listed(ps, i)));
                        if listed(ps, i) {
                            let w = choose|w: int| 0 <= w < ps.len() && ps[w] as int == i;
                            assert(self.postings@[t as int]@[w] as int == i);
                            assert(kc[i][t as int] > 0);
                        }
                        if t < kc[i].len() && kc[i][t as int] > 0 {
                            assert(self.keys@[i].vector.counts@[t as int] > 0);
                            assert(self.postings@[t as int]@.contains(i as usize));
                            let w = choose|w: int| 0 <= w < ps.len() && ps[w] == i as usize;
                            assert(ps[w] as int == i);
                        }
                        if hit_below(qc, kc[i], t + 1) && !hit_below(qc, kc[i], t as int) {
                            let j = choose|j: int|
                                0 <= j < t + 1 && j < qc.len() && j < kc[i].len() && qc[j] > 0
                                    && kc[i][j] > 0;
                            assert(j == t);
                        }
                    }
                }
            } else {
                proof {
                    assert forall|i: int| 0 <= i < n implies (seen@[i] <==> hit_below(qc, kc[i], t + 1)) by {
                        if hit_below(qc, kc[i], t + 1) && !hit_below(qc, kc[i], t as int) {
                            let j = choose|j: int|
                                0 <= j < t + 1 && j < qc.len() && j < kc[i].len() && qc[j] > 0
                                    && kc[i][j] > 0;
                            assert(j == t);
                        }
                    }
                }
            }
            t = t + 1;
        }
        proof {
            assert forall|i: int| 0 <= i < n implies (seen@[i] <==> dot(qc, kc[i]) > 0) by {
                assert(self.keys@[i].vector.counts@.len() <= self.postings@.len());
                let len = if qc.len() <= kc[i].len() {
                    qc.len() as int
                } else {
                    kc[i].len() as int
                };
                lemma_dot_pos(qc, kc[i], len);
                if hit_below(qc, kc[i], tmax as int) {
                    let j = choose|j: int|
                        0 <= j < tmax && j < qc.len() && j < kc[i].len() && qc[j] > 0 && kc[i][j] > 0;
                    assert(0 <= j < len && qc[j] > 0 && kc[i][j] > 0);
                }
                if dot(qc, kc[i]) > 0 {
                    let j = choose|j: int| 0 <= j < len && qc[j] > 0 && kc[i][j] > 0;
                    assert(j < tmax);
                }
            }
        }
        let mut out: Vec<usize> = Vec::new();
        let mut k: usize = 0;
        while k < n
            invariant
                k <= n,
                n == kc.len(),
                seen@.len() == n,
                forall|i: int| 0 <= i < n ==> (seen@[i] <==> dot(qc, kc[i]) > 0),
                forall|a: int, b: int| 0 <= a < b < out@.len() ==> out@[a] < out@[b],
                forall|a: int| 0 <= a < out@.len() ==> out@[a] < k,
                forall|i: int| listed(out@, i) <==> (0 <= i < k && is_candidate(kc, qc, i)),
            decreases n - k,
        {
            let ghost before = out@;
            if seen[k] {
                out.push(k);
                proof {
                    assert forall|i: int| listed(out@, i) <==> (0 <= i < k + 1 && is_candidate(kc, qc, i)) by {
                        if listed(before, i) {
                            let w = choose|w: int| 0 <= w < before.len() && before[w] as int == i;
                            assert(out@[w] as int == i);
                        }
                        if i == k {
                            assert(out@[before.len() as int] as int == i);
                        } else if listed(out@, i) {
                            let w = choose|w: int| 0 <= w < out@.len() && out@[w] as int == i;
                            assert(w < before.len());
                            assert(before[w] as int == i);
                        }
                    }
                }
            } else {
                proof {
                    assert forall|i: int| listed(out@, i) <==> (0 <= i < k + 1 && is_candidate(kc, qc, i)) by {
                        if listed(out@, i) {
                            let w = choose|w: int| 0 <= w < out@.len() && out@[w] as int == i;
                            assert(out@[w] < k);
                        }
                    }
                }
            }
            k = k + 1;
        }
        out
    }

    /// Every key that shares a counted word with the query vector `q`, best
    /// first (a higher cosine first, an earlier key first among equal
    /// cosines), cut to the first `max`, each with its score.
    pub fn rank(&self, q: &TfVector, max: usize) -> (r: Vec<(usize, Score)>)
        requires
            self.wf(),
            q.wf(),
        ensures
            exists|full: Seq<int>|
                ranked_all(self.key_counts(), q.counts@, full) && r@.len() == min_len(
                    max,
                    full.len(),
                ) && forall|j: int|
                    0 <= j < r@.len() ==> r@[j].0 as int == full[j] && scores(
                        self.key_counts(),
                        q.counts@,
                        full[j],
                        r@[j].1,
                    ),
    {
        let ghost kc = self.key_counts();
        let ghost qc = q.counts@;
        let cands = self.candidates(q);
        let qn = dot_of(q, q);
        let mut out: Vec<(usize, Score)> = Vec::new();
        let mut j: usize = 0;
        while j < cands.len()
            invariant
                self.wf(),
                q.wf(),
                kc == self.key_counts(),
                qc == q.counts@,
                qn == norm_sq(qc),
                j <= cands@.len(),
                forall|a: int, b: int| 0 <= a < b < cands@.len() ==> cands@[a] < cands@[b],
                forall|k: int| listed(cands@, k) <==> is_candidate(kc, qc, k),
                forall|k: int| listed(hit_keys(out@), k) <==> listed(cands@.take(j as int), k),
                forall|a: int| 0 <= a < out@.len() ==> is_candidate(kc, qc, #[trigger] out@[a].0 as int),
                forall|a: int| 0 <= a < out@.len() ==> scores(kc, qc, out@[a].0 as int, #[trigger] out@[a].1),
                forall|a: int|
                    0 <= a < out@.len() ==> (#[trigger] out@[a].1).dot <= MAX_TERMS * MAX_TERMS
                        && out@[a].1.key_norm_sq <= MAX_TERMS * MAX_TERMS,
                forall|a: int, b: int|
                    0 <= a < b < out@.len() ==> ranks_before(kc, qc, #[trigger] out@[a].0 as int, #[trigger] out@[b].0 as int),
            decreases cands@.len() - j,
        {
            let c = cands[j];
            proof {
                assert(listed(cands@, c as int)) by {
                    assert(cands@[j as int] as int == c as int);
                }
                assert(!listed(hit_keys(out@), c as int)) by {
                    if listed(cands@.take(j as int), c as int) {
                        let w = choose|w: int| 0 <= w < j && cands@.take(j as int)[w] as int == c as int;
                        assert(cands@[w] < cands@[j as int]);
                    }
                }
                assert(self.keys@[c as int].wf());
                let cv = self.keys@[c as int].vector;
                lemma_dot_bound(cv.counts@, cv.counts@, cv.total as int, cv.total as int);
            }
            let d = dot_of(q, &self.keys[c].vector);
            let kn = self.keys[c].norm_sq;
            let mut p: usize = 0;
            while p < out.len() && !ranks_above(d, kn, c, out[p].1.dot, out[p].1.key_norm_sq, out[p].0)
                invariant
                    self.wf(),
                    kc == self.key_counts(),
                    qc == q.counts@,
                    is_candidate(kc, qc, c as int),
                    !listed(hit_keys(out@), c as int),
                    d == dot(qc, kc[c as int]),
                    kn == norm_sq(kc[c as int]),
                    d <= MAX_TERMS * MAX_TERMS,
                    kn <= MAX_TERMS * MAX_TERMS,
                    p <= out@.len(),
                    forall|a: int| 0 <= a < out@.len() ==> is_candidate(kc, qc, #[trigger] out@[a].0 as int),
                    forall|a: int| 0 <= a < out@.len() ==> scores(kc, qc, out@[a].0 as int, #[trigger] out@[a].1),
                    forall|a: int|
                        0 <= a < out@.len() ==> (#[trigger] out@[a].1).dot <= MAX_TERMS * MAX_TERMS
                            && out@[a].1.key_norm_sq <= MAX_TERMS * MAX_TERMS,
                    forall|a: int| 0 <= a < p ==> ranks_before(kc, qc, #[trigger] out@[a].0 as int, c as int),
                decreases out@.len() - p,
            {
                proof {
                    let o = out@[p as int].0 as int;
                    assert(hit_keys(out@)[p as int] as int == o);
                    assert(o != c as int);
                }
                p = p + 1;
            }
            let ghost before = out@;
            assert(forall|k: int| listed(hit_keys(before), k) <==> listed(cands@.take(j as int), k));
            proof {
                if p < out@.len() {
                    assert forall|b: int| p <= b < before.len() implies ranks_before(
                        kc,
                        qc,
                        c as int,
                        #[trigger] before[b].0 as int,
                    ) by {
                        if b > p {
                            lemma_ranks_trans(kc, qc, c as int, before[p as int].0 as int, before[b].0 as int);
                        }
                    }
                }
            }
            let sc = Score { dot: d, query_norm_sq: qn, key_norm_sq: kn };
            out.insert(p, (c, sc));
            proof {
                assert(out@ == before.insert(p as int, (c, sc)));
                assert forall|a: int, b: int|
                    0 <= a < b < out@.len() implies ranks_before(kc, qc, #[trigger] out@[a].0 as int, #[trigger] out@[b].0 as int) by {
                    if b < p {
                        assert(out@[a] == before[a] && out@[b] == before[b]);
                    } else if b == p {
                        assert(out@[a] == before[a]);
                    } else if a == p {
                        assert(out@[b] == before[b - 1]);
                    } else if a < p {
                        assert(out@[a] == before[a] && out@[b] == before[b - 1]);
                        lemma_ranks_trans(kc, qc, before[a].0 as int, c as int, before[b - 1].0 as int);
                    } else {
                        assert(out@[a] == before[a - 1] && out@[b] == before[b - 1]);
                    }
                }
                assert forall|a: int| 0 <= a < out@.len() implies is_candidate(kc, qc, #[trigger] out@[a].0 as int)
                    && scores(kc, qc, out@[a].0 as int, out@[a].1) && out@[a].1.dot <= MAX_TERMS * MAX_TERMS
                    && out@[a].1.key_norm_sq <= MAX_TERMS * MAX_TERMS by {
                    if a < p {
                        assert(out@[a] == before[a]);
                    } else if a > p {
                        assert(out@[a] == before[a - 1]);
                    }
                }
                let ct = cands@.take(j + 1);
                assert(ct =~= cands@.take(j as int).push(c));
                assert forall|k: int| listed(hit_keys(out@), k) <==> listed(ct, k) by {
                    let h0 = hit_keys(before);
                    let h1 = hit_keys(out@);
                    if listed(h1, k) {
                        let w = choose|w: int| 0 <= w < h1.len() && h1[w] as int == k;
                        if w < p {
                            assert(h0[w] as int == k);
                            assert(listed(h0, k));
                        } else if w > p {
                            assert(h0[w - 1] as int == k);
                            assert(listed(h0, k));
                        } else {
                            assert(ct[j as int] as int == k);
                        }
                        if k != c as int {
                            assert(listed(h0, k));
                            assert(listed(cands@.take(j as int), k));
                            let w3 = choose|w3: int| 0 <= w3 < j && cands@.take(j as int)[w3] as int == k;
                            assert(ct[w3] as int == k);
                        }
                    }
                    if listed(ct, k) {
                        let w = choose|w: int| 0 <= w < ct.len() && ct[w] as int == k;
                        if w == j {
                            assert(h1[p as int] as int == k);
                        } else {
                            assert(cands@.take(j as int)[w] as int == k);
                            assert(listed(h0, k));
                            let w2 = choose|w2: int| 0 <= w2 < h0.len() && h0[w2] as int == k;
                            if w2 < p {
                                assert(h1[w2] as int == k);
                            } else {
                                assert(h1[w2 + 1] as int == k);
                            }
                        }
                    }
                }
            }
            j = j + 1;
        }
        let ghost full = Seq::new(out@.len(), |i: int| out@[i].0 as int);
        proof {
            assert(cands@.take(cands@.len() as int) =~= cands@);
            assert(full.no_duplicates()) by {
                assert forall|a: int, b: int| 0 <= a < full.len() && 0 <= b < full.len() && a != b
                    implies full[a] != full[b] by {
                    if a < b {
                        assert(ranks_before(kc, qc, out@[a].0 as int, out@[b].0 as int));
                    } else {
                        assert(ranks_before(kc, qc, out@[b].0 as int, out@[a].0 as int));
                    }
                }
            }
            assert forall|k: int| full.contains(k) <==> is_candidate(kc, qc, k) by {
                let h = hit_keys(out@);
                if full.contains(k) {
                    let w = choose|w: int| 0 <= w < full.len() && full[w] == k;
                    assert(h[w] as int == k);
                }
                if is_candidate(kc, qc, k) {
                    assert(listed(h, k));
                    let w = choose|w: int| 0 <= w < h.len() && h[w] as int == k;
                    assert(full[w] == k);
                }
            }
            assert forall|a: int, b: int| 0 <= a < b < full.len() implies ranks_before(
                kc,
                qc,
                #[trigger] full[a],
                #[trigger] full[b],
            ) by {
                assert(ranks_before(kc, qc, out@[a].0 as int, out@[b].0 as int));
            }
        }
        let ghost whole = out@;
        out.truncate(max);
        proof {
            assert(ranked_all(kc, qc, full));
            assert forall|j: int| 0 <= j < out@.len() implies out@[j].0 as int == full[j] && scores(kc, qc, full[j], out@[j].1) by {
                assert(out@[j] == whole[j]);
            }
        }
        out
    }

    /// Searches the finalized keys: the query's tokens are each replaced by
    /// the vocabulary words that match them best (see `fitted`; a token that
    /// matches none is dropped), the first `MAX_TERMS` of these are
    /// vectorized over the vocabulary, and the groups of the keys that share
    /// a word with the query are returned best first with their scores, at
    /// most `max` of them (see `rank`).
    pub fn search(&self, query: &str, max: usize) -> (r: Vec<(&Vec<V>, Score)>)
        requires
            self.wf(),
        ensures
            searched(*self, query@, max, Seq::new(r@.len(), |j: int| (r@[j].0@, r@[j].1))),
    {
        let ghost ws = self.grammar.words();
        let ts = tokenize(query);
        let mut fit = fit_tokens(&ts, &self.grammar.tokens);
        proof {
            assert(Seq::new(self.grammar.tokens@.len(), |i: int| self.grammar.tokens@[i].0@) =~= ws);
        }
        let ghost full_fit = fit.deep_view();
        if fit.len() > MAX_TERMS as usize {
            fit.truncate(MAX_TERMS as usize);
            assert(fit.deep_view() =~= full_fit.take(MAX_TERMS as int));
        }
        assert(fit.deep_view() == capped(fitted(tokens_of(query@), ws)));
        let input = VectorInput::Tokens(fit);
        let q = self.grammar.transform_flat(&input);
        let ghost qc = flat_counts(capped(fitted(tokens_of(query@), ws)), ws);
        assert(q.counts@ =~= qc);
        let ranked = self.rank(&q, max);
        let ghost full = choose|full: Seq<int>|
            ranked_all(self.key_counts(), qc, full) && ranked@.len() == min_len(max, full.len())
                && forall|j: int|
                0 <= j < ranked@.len() ==> ranked@[j].0 as int == full[j] && scores(
                    self.key_counts(),
                    qc,
                    full[j],
                    ranked@[j].1,
                );
        let mut out: Vec<(&Vec<V>, Score)> = Vec::new();
        let mut j: usize = 0;
        while j < ranked.len()
            invariant
                self.wf(),
                j <= ranked@.len(),
                out@.len() == j,
                ranked_all(self.key_counts(), qc, full),
                ranked@.len() == min_len(max, full.len()),
                forall|i: int|
                    0 <= i < ranked@.len() ==> ranked@[i].0 as int == full[i] && scores(
                        self.key_counts(),
                        qc,
                        full[i],
                        ranked@[i].1,
                    ),
                forall|i: int|
                    0 <= i < j ==> out@[i].0@ == self.groups()[full[i]] && out@[i].1 == ranked@[i].1,
            decreases ranked@.len() - j,
        {
            let k = ranked[j].0;
            proof {
                assert(full.contains(full[j as int]));
            }
            out.push((&self.values[k], ranked[j].1));
            j = j + 1;
        }
        out
    }
}

} // verus!
