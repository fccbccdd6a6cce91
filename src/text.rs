//! Splitting text into lower-cased word tokens.
use vstd::prelude::*;
use vstd::string::*;

verus! {

/// Whether std classifies `c` as alphanumeric (Unicode `Alphabetic` or `Numeric`).
pub uninterp spec fn is_word_char(c: char) -> bool;

/// The Unicode lower-case mapping of a string, as std computes it.
pub uninterp spec fn lower_of(s: Seq<char>) -> Seq<char>;

/// Relies on `char::is_alphanumeric`: the answer depends on the character alone.
#[verifier::external_body]
fn word_char(c: char) -> (r: bool)
    ensures
        r == is_word_char(c),
{
    c.is_alphanumeric()
}

/// Relies on `str::to_lowercase`: the result depends on the characters alone.
#[verifier::external_body]
fn lowercase(s: &str) -> (r: String)
    ensures
        r@ == lower_of(s@),
{
    s.to_lowercase()
}

/// The result of std's `str::trim`: the string without leading and trailing
/// Unicode white space.
pub uninterp spec fn trim_of(s: Seq<char>) -> Seq<char>;

/// Relies on `str::trim`: the result depends on the characters alone and is
/// a part of the input, so it is no longer.
#[verifier::external_body]
pub fn trim(s: &str) -> (r: String)
    ensures
        r@ == trim_of(s@),
        r@.len() <= s@.len(),
{
    s.trim().to_string()
}

/// Appends `b` to `a`.
pub(crate) fn push_str(a: &mut String, b: &str)
    ensures
        final(a)@ == old(a)@ + b@,
{
    a.append(b)
}

/// Relies on `String::push`: appends `c` to `a`.
#[verifier::external_body]
pub(crate) fn push_char(a: &mut String, c: char)
    ensures
        final(a)@ == old(a)@.push(c),
{
    a.push(c)
}

/// The pieces of `s` between occurrences of `sep`, when the piece read so far is `cur`.
pub open spec fn split_from(s: Seq<char>, sep: char, cur: Seq<char>) -> Seq<Seq<char>>
    decreases s.len(),
{
    if s.len() == 0 {
        seq![cur]
    } else if s[0] == sep {
        seq![cur] + split_from(s.drop_first(), sep, Seq::empty())
    } else {
        split_from(s.drop_first(), sep, cur.push(s[0]))
    }
}

/// The pieces of `s` between occurrences of `sep`, empty ones included: one
/// more than there are separators.
pub open spec fn pieces(s: Seq<char>, sep: char) -> Seq<Seq<char>> {
    split_from(s, sep, Seq::empty())
}

pub proof fn lemma_split_from_short(s: Seq<char>, sep: char, cur: Seq<char>)
    ensures
        forall|i: int|
            0 <= i < split_from(s, sep, cur).len() ==> #[trigger] split_from(s, sep, cur)[i].len()
                <= s.len() + cur.len(),
    decreases s.len(),
{
    if s.len() > 0 {
        if s[0] == sep {
            lemma_split_from_short(s.drop_first(), sep, Seq::empty());
            let rest = split_from(s.drop_first(), sep, Seq::empty());
            assert forall|i: int| 0 <= i < split_from(s, sep, cur).len() implies #[trigger] split_from(
                s,
                sep,
                cur,
            )[i].len() <= s.len() + cur.len() by {
                if i > 0 {
                    assert(split_from(s, sep, cur)[i] == rest[i - 1]);
                } else {
                    assert(split_from(s, sep, cur)[i] == cur);
                }
            }
        } else {
            lemma_split_from_short(s.drop_first(), sep, cur.push(s[0]));
            let rest = split_from(s.drop_first(), sep, cur.push(s[0]));
            assert(split_from(s, sep, cur) == rest);
            assert forall|i: int| 0 <= i < rest.len() implies #[trigger] rest[i].len() <= s.len()
                + cur.len() by {
                assert(rest[i].len() <= s.drop_first().len() + cur.push(s[0]).len());
            }
        }
    } else {
        assert(split_from(s, sep, cur) == seq![cur]);
        assert(seq![cur][0] == cur);
    }
}

/// Splits `s` at every `sep` (std's `str::split` on a character).
pub fn split_on(s: &str, sep: char) -> (r: Vec<String>)
    ensures
        r.deep_view() == pieces(s@, sep),
{
    let n = s.unicode_len();
    let mut out: Vec<String> = Vec::new();
    let mut start: usize = 0;
    let mut i: usize = 0;
    assert(s@.subrange(0, n as int) =~= s@);
    assert(s@.subrange(0, 0) =~= Seq::<char>::empty());
    assert(out.deep_view() + pieces(s@, sep) =~= pieces(s@, sep));
    while i < n
        invariant
            n == s@.len(),
            start <= i <= n,
            out.deep_view() + split_from(s@.subrange(i as int, n as int), sep, s@.subrange(
                start as int,
                i as int,
            )) == pieces(s@, sep),
        decreases n - i,
    {
        let c = s.get_char(i);
        let ghost rest = s@.subrange(i as int, n as int);
        assert(rest.drop_first() =~= s@.subrange(i + 1, n as int));
        assert(rest[0] == c);
        if c != sep {
            assert(s@.subrange(start as int, i as int).push(c) =~= s@.subrange(
                start as int,
                i + 1,
            ));
            i = i + 1;
        } else {
            let ghost before = out.deep_view();
            let ghost cur = s@.subrange(start as int, i as int);
            let piece = s.substring_char(start, i).to_owned();
            out.push(piece);
            assert(out.deep_view() =~= before + seq![cur]);
            assert(before + (seq![cur] + split_from(s@.subrange(i + 1, n as int), sep, Seq::empty()))
                =~= out.deep_view() + split_from(s@.subrange(i + 1, n as int), sep, Seq::empty()));
            i = i + 1;
            start = i;
            assert(s@.subrange(start as int, i as int) =~= Seq::<char>::empty());
        }
    }
    let ghost cur = s@.subrange(start as int, n as int);
    let ghost before = out.deep_view();
    let piece = s.substring_char(start, n).to_owned();
    out.push(piece);
    assert(out.deep_view() =~= before + seq![cur]);
    out
}

/// Whether `c` occurs in `s`.
pub fn has_char(s: &str, c: char) -> (r: bool)
    ensures
        r == s@.contains(c),
{
    let n = s.unicode_len();
    let mut i: usize = 0;
    while i < n
        invariant
            n == s@.len(),
            i <= n,
            forall|j: int| 0 <= j < i ==> s@[j] != c,
        decreases n - i,
    {
        if s.get_char(i) == c {
            return true;
        }
        i = i + 1;
    }
    false
}

/// The token that a finished run of word characters gives (none for an empty run).
pub open spec fn emit(run: Seq<char>) -> Seq<Seq<char>> {
    if run.len() > 0 {
        seq![lower_of(run)]
    } else {
        Seq::empty()
    }
}

/// The tokens of `s`, when the run of word characters read so far is `run`.
pub open spec fn word_runs(s: Seq<char>, run: Seq<char>) -> Seq<Seq<char>>
    decreases s.len(),
{
    if s.len() == 0 {
        emit(run)
    } else if is_word_char(s[0]) {
        word_runs(s.drop_first(), run.push(s[0]))
    } else {
        emit(run) + word_runs(s.drop_first(), Seq::empty())
    }
}

/// The tokens of a text: its maximal runs of alphanumeric characters, in
/// order, each lower-cased. Empty runs give no token.
pub open spec fn tokens_of(s: Seq<char>) -> Seq<Seq<char>> {
    word_runs(s, Seq::empty())
}

/// A text never has more tokens than characters.
pub proof fn lemma_word_runs_len(s: Seq<char>, run: Seq<char>)
    ensures
        word_runs(s, run).len() <= s.len() + if run.len() > 0 {
            1int
        } else {
            0int
        },
    decreases s.len(),
{
    if s.len() > 0 {
        if is_word_char(s[0]) {
            lemma_word_runs_len(s.drop_first(), run.push(s[0]));
        } else {
            lemma_word_runs_len(s.drop_first(), Seq::empty());
        }
    }
}

/// A text never has more tokens than characters.
pub proof fn lemma_tokens_len(s: Seq<char>)
    ensures
        tokens_of(s).len() <= s.len(),
{
    lemma_word_runs_len(s, Seq::empty());
}

/// Splits `s` on every character that is not alphanumeric, drops the empty
/// pieces and lower-cases the rest.
pub fn tokenize(s: &str) -> (r: Vec<String>)
    ensures
        r.deep_view() == tokens_of(s@),
{
    let n = s.unicode_len();
    let mut out: Vec<String> = Vec::new();
    let mut start: usize = 0;
    let mut i: usize = 0;
    assert(s@.subrange(0, n as int) =~= s@);
    assert(s@.subrange(0, 0) =~= Seq::<char>::empty());
    assert(out.deep_view() =~= Seq::<Seq<char>>::empty());
    assert(out.deep_view() + tokens_of(s@) =~= tokens_of(s@));
    while i < n
        invariant
            n == s@.len(),
            start <= i <= n,
            out.deep_view() + word_runs(s@.subrange(i as int, n as int), s@.subrange(
                start as int,
                i as int,
            )) == tokens_of(s@),
        decreases n - i,
    {
        let c = s.get_char(i);
        let ghost rest = s@.subrange(i as int, n as int);
        assert(rest.drop_first() =~= s@.subrange(i + 1, n as int));
        assert(rest[0] == c);
        if word_char(c) {
            assert(s@.subrange(start as int, i as int).push(c) =~= s@.subrange(
                start as int,
                i + 1,
            ));
            i = i + 1;
        } else {
            let ghost before = out.deep_view();
            let ghost run = s@.subrange(start as int, i as int);
            if start < i {
                let piece = lowercase(s.substring_char(start, i));
                out.push(piece);
                assert(out.deep_view() =~= before + emit(run));
            } else {
                assert(out.deep_view() =~= before + emit(run));
            }
            assert(before + (emit(run) + word_runs(s@.subrange(i + 1, n as int), Seq::empty()))
                =~= out.deep_view() + word_runs(s@.subrange(i + 1, n as int), Seq::empty()));
            i = i + 1;
            start = i;
            assert(s@.subrange(start as int, i as int) =~= Seq::<char>::empty());
        }
    }
    let ghost run = s@.subrange(start as int, n as int);
    let ghost before = out.deep_view();
    if start < n {
        let piece = lowercase(s.substring_char(start, n));
        out.push(piece);
    }
    assert(out.deep_view() =~= before + emit(run));
    out
}

} // verus!
