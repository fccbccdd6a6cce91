//! Fuzzy matching of query tokens against the vocabulary.
use vstd::prelude::*;
use fuzzy_matcher::skim::SkimMatcherV2;
use fuzzy_matcher::FuzzyMatcher;

verus! {

/// The score that skim's fuzzy matcher (default configuration, smart case)
/// gives to `pattern` inside `choice`; `None` when it does not match.
pub uninterp spec fn skim_score(choice: Seq<char>, pattern: Seq<char>) -> Option<i64>;

/// Relies on `SkimMatcherV2::fuzzy_match` from fuzzy-matcher: the score
/// depends on the two strings alone, and an empty pattern scores `Some(0)`.
#[verifier::external_body]
fn fuzzy_score(choice: &str, pattern: &str) -> (r: Option<i64>)
    ensures
        r == skim_score(choice@, pattern@),
        pattern@.len() == 0 ==> r == Some(0i64),
{
    SkimMatcherV2::default().smart_case().fuzzy_match(choice, pattern)
}

/// A score, with no match read as zero.
pub open spec fn score_or_zero(s: Option<i64>) -> i64 {
    match s {
        Some(v) => v,
        None => 0,
    }
}

/// The highest of the scores, and zero when none is positive.
pub open spec fn top_score(s: Seq<i64>) -> i64
    decreases s.len(),
{
    if s.len() == 0 {
        0
    } else {
        let t = top_score(s.drop_last());
        if s.last() > t {
            s.last()
        } else {
            t
        }
    }
}

/// Among the first `n` scores, the indices whose score is the highest
/// positive score `top`, in increasing order.
pub open spec fn picks(s: Seq<i64>, top: i64, n: int) -> Seq<int>
    decreases n,
{
    if n <= 0 {
        Seq::empty()
    } else if s[n - 1] > 0 && s[n - 1] == top {
        picks(s, top, n - 1).push(n - 1)
    } else {
        picks(s, top, n - 1)
    }
}

/// The indices of the best scores: all those equal to the highest score,
/// when it is positive.
pub open spec fn best_indices(s: Seq<i64>) -> Seq<int> {
    picks(s, top_score(s), s.len() as int)
}

pub proof fn lemma_picks_bounds(s: Seq<i64>, top: i64, n: int)
    requires
        0 <= n <= s.len(),
    ensures
        picks(s, top, n).len() <= n,
        forall|k: int| 0 <= k < picks(s, top, n).len() ==> 0 <= #[trigger] picks(s, top, n)[k] < n,
    decreases n,
{
    if n > 0 {
        lemma_picks_bounds(s, top, n - 1);
    }
}

/// The indices of the best scores (see `best_indices`), in increasing order.
pub fn best_matches(scores: &Vec<i64>) -> (r: Vec<usize>)
    ensures
        r@.len() == best_indices(scores@).len(),
        forall|k: int| 0 <= k < r@.len() ==> r@[k] as int == #[trigger] best_indices(scores@)[k],
{
    let mut top: i64 = 0;
    let mut i: usize = 0;
    while i < scores.len()
        invariant
            i <= scores@.len(),
            top == top_score(scores@.take(i as int)),
        decreases scores@.len() - i,
    {
        assert(scores@.take(i + 1).drop_last() =~= scores@.take(i as int));
        if scores[i] > top {
            top = scores[i];
        }
        i = i + 1;
    }
    assert(scores@.take(scores@.len() as int) =~= scores@);
    let mut out: Vec<usize> = Vec::new();
    let mut j: usize = 0;
    while j < scores.len()
        invariant
            j <= scores@.len(),
            top == top_score(scores@),
            out@.len() == picks(scores@, top, j as int).len(),
            forall|k: int| 0 <= k < out@.len() ==> out@[k] as int == #[trigger] picks(scores@, top, j as int)[k],
        decreases scores@.len() - j,
    {
        if scores[j] > 0 && scores[j] == top {
            out.push(j);
        }
        j = j + 1;
    }
    out
}

/// The tokens that `ts` become against the words `ws`: each is replaced by
/// the words that match it best (all of those tied at the highest positive
/// score, in vocabulary order), and dropped when no word matches.
pub open spec fn fitted(ts: Seq<Seq<char>>, ws: Seq<Seq<char>>) -> Seq<Seq<char>>
    decreases ts.len(),
{
    if ts.len() == 0 {
        Seq::empty()
    } else {
        let scores = Seq::new(ws.len(), |i: int| score_or_zero(skim_score(ws[i], ts.last())));
        let b = best_indices(scores);
        fitted(ts.drop_last(), ws) + Seq::new(b.len(), |k: int| ws[b[k]])
    }
}

/// Replaces each of the tokens `ts` by the word of `ws` that matches it
/// best, dropping a token that no word matches.
pub fn fit_tokens(ts: &Vec<String>, ws: &Vec<(String, usize)>) -> (r: Vec<String>)
    ensures
        r.deep_view() == fitted(ts.deep_view(), Seq::new(ws@.len(), |i: int| ws@[i].0@)),
{
    let ghost words = Seq::new(ws@.len(), |i: int| ws@[i].0@);
    let mut out: Vec<String> = Vec::new();
    let mut j: usize = 0;
    assert(ts.deep_view().take(0) =~= Seq::<Seq<char>>::empty());
    while j < ts.len()
        invariant
            j <= ts@.len(),
            words == Seq::new(ws@.len(), |i: int| ws@[i].0@),
            out.deep_view() == fitted(ts.deep_view().take(j as int), words),
        decreases ts@.len() - j,
    {
        let ghost pre = ts.deep_view().take(j as int);
        assert(ts.deep_view().take(j + 1).drop_last() =~= pre);
        let ghost t = ts@[j as int]@;
        let mut scores: Vec<i64> = Vec::new();
        let mut i: usize = 0;
        while i < ws.len()
            invariant
                i <= ws@.len(),
                j < ts@.len(),
                t == ts@[j as int]@,
                words == Seq::new(ws@.len(), |i: int| ws@[i].0@),
                scores@ == Seq::new(i as nat, |k: int| score_or_zero(skim_score(words[k], t))),
            decreases ws@.len() - i,
        {
            let s = fuzzy_score(ws[i].0.as_str(), ts[j].as_str());
            let v: i64 = match s {
                Some(v) => v,
                None => 0,
            };
            scores.push(v);
            assert(scores@ =~= Seq::new((i + 1) as nat, |k: int| score_or_zero(skim_score(words[k], t))));
            i = i + 1;
        }
        let ghost all = Seq::new(words.len(), |k: int| score_or_zero(skim_score(words[k], t)));
        assert(scores@ =~= all);
        let ghost before = out.deep_view();
        let best = best_matches(&scores);
        let ghost b = best_indices(all);
        proof {
            lemma_picks_bounds(all, top_score(all), all.len() as int);
        }
        let mut k: usize = 0;
        while k < best.len()
            invariant
                k <= best@.len(),
                best@.len() == b.len(),
                forall|m: int| 0 <= m < best@.len() ==> best@[m] as int == #[trigger] b[m],
                forall|m: int| 0 <= m < b.len() ==> 0 <= #[trigger] b[m] < ws@.len(),
                words == Seq::new(ws@.len(), |i: int| ws@[i].0@),
                out.deep_view() == before + Seq::new(k as nat, |m: int| words[b[m]]),
            decreases best@.len() - k,
        {
            let w = best[k];
            assert(b[k as int] == w as int);
            let ghost o = out.deep_view();
            out.push(ws[w].0.clone());
            assert(out.deep_view() =~= o.push(ws@[w as int].0@));
            assert(words[b[k as int]] == ws@[w as int].0@);
            assert(out.deep_view() =~= before + Seq::new((k + 1) as nat, |m: int| words[b[m]]));
            k = k + 1;
        }
        j = j + 1;
    }
    assert(ts.deep_view().take(ts@.len() as int) =~= ts.deep_view());
    out
}

} // verus!
