//! Reconciliation of a previously observed file listing with the current one.
use vstd::prelude::*;
use crate::text::{pieces, push_char, push_str, split_from, split_on};

verus! {

/// The paths of `a`, in order, that do not occur in `b`.
pub open spec fn missing_from(a: Seq<Seq<char>>, b: Seq<Seq<char>>) -> Seq<Seq<char>>
    decreases a.len(),
{
    if a.len() == 0 {
        Seq::empty()
    } else {
        let rest = missing_from(a.drop_last(), b);
        if b.contains(a.last()) {
            rest
        } else {
            rest.push(a.last())
        }
    }
}

/// A path is kept by `missing_from` exactly when it is in `a` and not in `b`.
pub proof fn lemma_missing_from_members(a: Seq<Seq<char>>, b: Seq<Seq<char>>, x: Seq<char>)
    ensures
        missing_from(a, b).contains(x) <==> (a.contains(x) && !b.contains(x)),
    decreases a.len(),
{
    if a.len() > 0 {
        lemma_missing_from_members(a.drop_last(), b, x);
        let rest = missing_from(a.drop_last(), b);
        assert(a =~= a.drop_last().push(a.last()));
        if a.drop_last().contains(x) {
            let j = choose|j: int| 0 <= j < a.drop_last().len() && a.drop_last()[j] == x;
            assert(a[j] == x);
        }
        if a.contains(x) && a.last() != x {
            let j = choose|j: int| 0 <= j < a.len() && a[j] == x;
            assert(a.drop_last()[j] == x);
        }
        if !b.contains(a.last()) {
            assert(rest.push(a.last()).last() == a.last());
            if rest.contains(x) {
                let j = choose|j: int| 0 <= j < rest.len() && rest[j] == x;
                assert(rest.push(a.last())[j] == x);
            }
            if rest.push(a.last()).contains(x) && x != a.last() {
                let j = choose|j: int| 0 <= j < rest.len() + 1 && rest.push(a.last())[j] == x;
                assert(rest[j] == x);
            }
        }
    }
}

/// Diff correctness: a path is to be added exactly when it is listed now and
/// was not before, and to be removed exactly when it was listed before and is
/// not now; when both listings hold the same paths, nothing is to be done.
pub proof fn lemma_diff_correct(prev: Seq<Seq<char>>, curr: Seq<Seq<char>>)
    ensures
        forall|x: Seq<char>|
            #[trigger] missing_from(curr, prev).contains(x) <==> (curr.contains(x)
                && !prev.contains(x)),
        forall|x: Seq<char>|
            #[trigger] missing_from(prev, curr).contains(x) <==> (prev.contains(x)
                && !curr.contains(x)),
        prev.to_set() == curr.to_set() ==> missing_from(curr, prev).len() == 0 && missing_from(
            prev,
            curr,
        ).len() == 0,
{
    assert forall|x: Seq<char>|
        #[trigger] missing_from(curr, prev).contains(x) <==> (curr.contains(x) && !prev.contains(
            x,
        )) by {
        lemma_missing_from_members(curr, prev, x);
    }
    assert forall|x: Seq<char>|
        #[trigger] missing_from(prev, curr).contains(x) <==> (prev.contains(x) && !curr.contains(
            x,
        )) by {
        lemma_missing_from_members(prev, curr, x);
    }
    if prev.to_set() == curr.to_set() {
        assert forall|x: Seq<char>| prev.contains(x) <==> curr.contains(x) by {
            assert(prev.to_set().contains(x) == prev.contains(x));
            assert(curr.to_set().contains(x) == curr.contains(x));
        }
        let m1 = missing_from(curr, prev);
        let m2 = missing_from(prev, curr);
        if m1.len() > 0 {
            assert(m1.contains(m1[0]));
        }
        if m2.len() > 0 {
            assert(m2.contains(m2[0]));
        }
    }
}

/// One step of the work that brings a catalog up to date with the disk.
pub enum CacheCompareDiff {
    ToAdd { files: Vec<String> },
    ToRemove { files: Vec<String> },
    NoDiff,
}

impl CacheCompareDiff {
    /// The paths carried by this step (none for `NoDiff`).
    pub open spec fn files_view(&self) -> Seq<Seq<char>> {
        match self {
            CacheCompareDiff::ToAdd { files } => files.deep_view(),
            CacheCompareDiff::ToRemove { files } => files.deep_view(),
            CacheCompareDiff::NoDiff => Seq::empty(),
        }
    }
}

/// Whether `path` is one of `paths`.
pub fn contains_path(paths: &Vec<String>, path: &String) -> (r: bool)
    ensures
        r == paths.deep_view().contains(path@),
{
    let mut i: usize = 0;
    while i < paths.len()
        invariant
            0 <= i <= paths.len(),
            forall|j: int| 0 <= j < i ==> paths.deep_view()[j] != path@,
        decreases paths.len() - i,
    {
        if paths[i] == *path {
            assert(paths.deep_view()[i as int] == path@);
            return true;
        }
        i = i + 1;
    }
    false
}

/// The paths of `a`, in order, that are not in `b`.
pub fn paths_missing_from(a: &Vec<String>, b: &Vec<String>) -> (r: Vec<String>)
    ensures
        r.deep_view() == missing_from(a.deep_view(), b.deep_view()),
{
    let mut out: Vec<String> = Vec::new();
    let mut i: usize = 0;
    while i < a.len()
        invariant
            0 <= i <= a.len(),
            out.deep_view() == missing_from(a.deep_view().take(i as int), b.deep_view()),
        decreases a.len() - i,
    {
        let ghost before = out.deep_view();
        assert(a.deep_view().take(i + 1).drop_last() =~= a.deep_view().take(i as int));
        if !contains_path(b, &a[i]) {
            out.push(a[i].clone());
            assert(out.deep_view() =~= before.push(a.deep_view()[i as int]));
        }
        i = i + 1;
    }
    assert(a.deep_view().take(a.len() as int) =~= a.deep_view());
    out
}

/// Compares the previous listing with the current one: the paths to remove
/// (previously seen, now gone) and to add (new since), with the number of
/// each, or a single `NoDiff` when the two listings hold the same paths.
pub fn compare_caches(prev: Vec<String>, curr: Vec<String>) -> (r: (
    Vec<CacheCompareDiff>,
    usize,
    usize,
))
    ensures
        ({
            let to_add = missing_from(curr.deep_view(), prev.deep_view());
            let to_remove = missing_from(prev.deep_view(), curr.deep_view());
            if to_add.len() == 0 && to_remove.len() == 0 {
                &&& r.0@.len() == 1
                &&& r.0@[0] is NoDiff
                &&& r.1 == 0
                &&& r.2 == 0
            } else {
                &&& r.0@.len() == 2
                &&& r.0@[0] is ToRemove
                &&& r.0@[0].files_view() == to_remove
                &&& r.0@[1] is ToAdd
                &&& r.0@[1].files_view() == to_add
                &&& r.1 == to_add.len()
                &&& r.2 == to_remove.len()
            }
        }),
{
    let files_to_remove = paths_missing_from(&prev, &curr);
    let files_to_add = paths_missing_from(&curr, &prev);
    if files_to_add.len() == 0 && files_to_remove.len() == 0 {
        return (vec![CacheCompareDiff::NoDiff], 0, 0);
    }
    let to_add_len = files_to_add.len();
    let to_remove_len = files_to_remove.len();
    (
        vec![
            CacheCompareDiff::ToRemove { files: files_to_remove },
            CacheCompareDiff::ToAdd { files: files_to_add },
        ],
        to_add_len,
        to_remove_len,
    )
}

/// What a reconciliation pass has to do.
pub enum SyncPlan {
    /// No usable snapshot: index these files into a fresh catalog.
    Rebuild { files: Vec<String> },
    /// Apply the differences to the loaded snapshot: remove, then add.
    Apply { to_remove: Vec<String>, to_add: Vec<String> },
    /// The listing did not change: keep the snapshot as it is, write nothing.
    Unchanged,
}

/// Decides a reconciliation pass from the previous listing, the current one,
/// and whether the previous catalog snapshot could be loaded.
pub fn plan_sync(prev: Vec<String>, curr: Vec<String>, snapshot_loaded: bool) -> (r: SyncPlan)
    ensures
        !snapshot_loaded ==> (r matches SyncPlan::Rebuild { files } && files.deep_view()
            == curr.deep_view()),
        snapshot_loaded && missing_from(curr.deep_view(), prev.deep_view()).len() == 0
            && missing_from(prev.deep_view(), curr.deep_view()).len() == 0 ==> r is Unchanged,
        snapshot_loaded && (missing_from(curr.deep_view(), prev.deep_view()).len() > 0
            || missing_from(prev.deep_view(), curr.deep_view()).len() > 0) ==> (r matches SyncPlan::Apply {
            to_remove,
            to_add,
        } && to_remove.deep_view() == missing_from(prev.deep_view(), curr.deep_view())
            && to_add.deep_view() == missing_from(curr.deep_view(), prev.deep_view())),
{
    if !snapshot_loaded {
        return SyncPlan::Rebuild { files: curr };
    }
    let to_remove = paths_missing_from(&prev, &curr);
    let to_add = paths_missing_from(&curr, &prev);
    if to_remove.len() == 0 && to_add.len() == 0 {
        SyncPlan::Unchanged
    } else {
        SyncPlan::Apply { to_remove, to_add }
    }
}

/// Whether the pass that `plan` describes changes the catalog, so that the
/// snapshot has to be written again.
pub fn needs_update(plan: &SyncPlan) -> (r: bool)
    ensures
        r == !(*plan is Unchanged),
{
    match plan {
        SyncPlan::Unchanged => false,
        _ => true,
    }
}

/// The paths joined by line feeds.
pub open spec fn joined(ps: Seq<Seq<char>>) -> Seq<char>
    decreases ps.len(),
{
    if ps.len() == 0 {
        Seq::empty()
    } else if ps.len() == 1 {
        ps[0]
    } else {
        ps[0] + seq!['\n'] + joined(ps.drop_first())
    }
}

/// The non-empty lines among `ls`.
pub open spec fn non_empty(ls: Seq<Seq<char>>) -> Seq<Seq<char>>
    decreases ls.len(),
{
    if ls.len() == 0 {
        Seq::empty()
    } else if ls.last().len() == 0 {
        non_empty(ls.drop_last())
    } else {
        non_empty(ls.drop_last()).push(ls.last())
    }
}

/// The paths that a listing text holds: its non-empty lines.
pub open spec fn listed_paths(text: Seq<char>) -> Seq<Seq<char>> {
    non_empty(pieces(text, '\n'))
}

/// A path that a listing can hold: not empty, and without a line feed.
pub open spec fn listable(p: Seq<char>) -> bool {
    p.len() > 0 && !p.contains('\n')
}

pub proof fn lemma_joined_push(ps: Seq<Seq<char>>, x: Seq<char>)
    requires
        ps.len() > 0,
    ensures
        joined(ps.push(x)) == joined(ps) + seq!['\n'] + x,
    decreases ps.len(),
{
    if ps.len() == 1 {
        assert(ps.push(x).drop_first() =~= seq![x]);
        assert(joined(seq![x]) == x);
        assert(ps.push(x)[0] == ps[0]);
        assert(joined(ps) == ps[0]);
    } else {
        lemma_joined_push(ps.drop_first(), x);
        assert(ps.push(x).drop_first() =~= ps.drop_first().push(x));
        assert(ps.push(x)[0] == ps[0]);
        assert(joined(ps.push(x)) == ps[0] + seq!['\n'] + joined(ps.drop_first().push(x)));
        assert(joined(ps) == ps[0] + seq!['\n'] + joined(ps.drop_first()));
        assert(ps[0] + seq!['\n'] + (joined(ps.drop_first()) + seq!['\n'] + x) =~= ps[0] + seq!['\n']
            + joined(ps.drop_first()) + seq!['\n'] + x);
    }
}

/// A run without the separator only extends the piece being read.
pub proof fn lemma_split_run(a: Seq<char>, rest: Seq<char>, sep: char, cur: Seq<char>)
    requires
        !a.contains(sep),
    ensures
        split_from(a + rest, sep, cur) == split_from(rest, sep, cur + a),
    decreases a.len(),
{
    if a.len() == 0 {
        assert(a + rest =~= rest);
        assert(cur + a =~= cur);
    } else {
        assert((a + rest)[0] == a[0]);
        assert((a + rest).drop_first() =~= a.drop_first() + rest);
        assert(!a.drop_first().contains(sep)) by {
            if a.drop_first().contains(sep) {
                let i = choose|i: int| 0 <= i < a.drop_first().len() && a.drop_first()[i] == sep;
                assert(a[i + 1] == sep);
            }
        }
        assert(a[0] != sep);
        lemma_split_run(a.drop_first(), rest, sep, cur.push(a[0]));
        assert(cur.push(a[0]) + a.drop_first() =~= cur + a);
    }
}

pub proof fn lemma_pieces_joined(ps: Seq<Seq<char>>)
    requires
        ps.len() > 0,
        forall|i: int| 0 <= i < ps.len() ==> !(#[trigger] ps[i]).contains('\n'),
    ensures
        pieces(joined(ps), '\n') == ps,
    decreases ps.len(),
{
    if ps.len() == 1 {
        lemma_split_run(ps[0], Seq::empty(), '\n', Seq::empty());
        assert(ps[0] + Seq::<char>::empty() =~= ps[0]);
        assert(Seq::<char>::empty() + ps[0] =~= ps[0]);
        assert(ps =~= seq![ps[0]]);
    } else {
        let rest = seq!['\n'] + joined(ps.drop_first());
        assert(joined(ps) =~= ps[0] + rest);
        lemma_split_run(ps[0], rest, '\n', Seq::empty());
        assert(Seq::<char>::empty() + ps[0] =~= ps[0]);
        assert(rest[0] == '\n');
        assert(rest.drop_first() =~= joined(ps.drop_first()));
        assert forall|i: int| 0 <= i < ps.drop_first().len() implies !(#[trigger] ps.drop_first()[i]).contains('\n') by {
            assert(ps.drop_first()[i] == ps[i + 1]);
        }
        lemma_pieces_joined(ps.drop_first());
        assert(seq![ps[0]] + ps.drop_first() =~= ps);
    }
}

pub proof fn lemma_non_empty_all(ls: Seq<Seq<char>>)
    requires
        forall|i: int| 0 <= i < ls.len() ==> (#[trigger] ls[i]).len() > 0,
    ensures
        non_empty(ls) == ls,
    decreases ls.len(),
{
    if ls.len() > 0 {
        assert(ls[ls.len() - 1] == ls.last());
        lemma_non_empty_all(ls.drop_last());
        assert(ls.drop_last().push(ls.last()) =~= ls);
    }
}

/// The listing round-trips: reading back the text written for a list of
/// listable paths gives the same paths, in the same order.
pub proof fn lemma_listing_round_trip(ps: Seq<Seq<char>>)
    requires
        forall|i: int| 0 <= i < ps.len() ==> listable(#[trigger] ps[i]),
    ensures
        listed_paths(joined(ps)) == ps,
{
    if ps.len() == 0 {
        assert(pieces(Seq::empty(), '\n') == seq![Seq::<char>::empty()]);
        let one = seq![Seq::<char>::empty()];
        assert(one.last().len() == 0);
        assert(one.drop_last() =~= Seq::<Seq<char>>::empty());
        assert(non_empty(one) == non_empty(one.drop_last()));
        assert(ps =~= Seq::<Seq<char>>::empty());
    } else {
        assert forall|i: int| 0 <= i < ps.len() implies !(#[trigger] ps[i]).contains('\n') by {
            assert(listable(ps[i]));
        }
        assert forall|i: int| 0 <= i < ps.len() implies (#[trigger] ps[i]).len() > 0 by {
            assert(listable(ps[i]));
        }
        lemma_pieces_joined(ps);
        lemma_non_empty_all(ps);
    }
}

/// The text of a listing: the paths, one per line.
pub fn encode_path_list(paths: &Vec<String>) -> (r: String)
    ensures
        r@ == joined(paths.deep_view()),
{
    let mut out = String::new();
    let mut i: usize = 0;
    while i < paths.len()
        invariant
            i <= paths@.len(),
            out@ == joined(paths.deep_view().take(i as int)),
        decreases paths@.len() - i,
    {
        let ghost pre = paths.deep_view().take(i as int);
        assert(paths.deep_view().take(i + 1) =~= pre.push(paths@[i as int]@));
        if i > 0 {
            push_char(&mut out, '\n');
            proof {
                lemma_joined_push(pre, paths@[i as int]@);
            }
        } else {
            assert(pre.push(paths@[i as int]@) =~= seq![paths@[i as int]@]);
            assert(out@ =~= Seq::<char>::empty());
        }
        push_str(&mut out, paths[i].as_str());
        assert(out@ =~= joined(paths.deep_view().take(i + 1)));
        i = i + 1;
    }
    assert(paths.deep_view().take(paths@.len() as int) =~= paths.deep_view());
    out
}

/// The paths of a listing text: its non-empty lines.
pub fn parse_path_list(text: &str) -> (r: Vec<String>)
    ensures
        r.deep_view() == listed_paths(text@),
{
    let ls = split_on(text, '\n');
    let mut out: Vec<String> = Vec::new();
    let mut i: usize = 0;
    while i < ls.len()
        invariant
            i <= ls@.len(),
            ls.deep_view() == pieces(text@, '\n'),
            out.deep_view() == non_empty(ls.deep_view().take(i as int)),
        decreases ls@.len() - i,
    {
        assert(ls.deep_view().take(i + 1).drop_last() =~= ls.deep_view().take(i as int));
        assert(ls.deep_view()[i as int] == ls@[i as int]@);
        let ghost before = out.deep_view();
        if ls[i].unicode_len() > 0 {
            out.push(ls[i].clone());
            assert(out.deep_view() =~= before.push(ls@[i as int]@));
        }
        i = i + 1;
    }
    assert(ls.deep_view().take(ls@.len() as int) =~= ls.deep_view());
    out
}

} // verus!
