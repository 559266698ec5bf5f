//! The ranker: orders the workspace names by ascending edit distance to the
//! query, ties broken by entry order. No candidate is ever dropped.

use crate::config::{names_of, Workspace};
use crate::distance::{edit_distance, lemma_edit_distance_le_max, levenshtein, nat_max};
use crate::text::chars_of;
use vstd::prelude::*;

verus! {

use vstd::string::StrSliceExecFns;

/// Names of the entries whose distance to `q` is exactly `d`, in entry order.
pub open spec fn bucket(q: Seq<char>, ws: Seq<Workspace>, d: nat) -> Seq<Seq<char>>
    decreases ws.len(),
{
    if ws.len() == 0 {
        Seq::empty()
    } else {
        let rest = bucket(q, ws.drop_last(), d);
        if edit_distance(q, ws.last().name@) == d {
            rest.push(ws.last().name@)
        } else {
            rest
        }
    }
}

/// All names at distance at most `d` from `q`, grouped by ascending
/// distance, each group in entry order.
pub open spec fn ranked_up_to(q: Seq<char>, ws: Seq<Workspace>, d: int) -> Seq<Seq<char>>
    decreases d + 1,
{
    if d < 0 {
        Seq::empty()
    } else {
        ranked_up_to(q, ws, d - 1) + bucket(q, ws, d as nat)
    }
}

/// An upper bound on the distance between `q` and any name of `ws`.
pub open spec fn distance_bound(q: Seq<char>, ws: Seq<Workspace>) -> nat
    decreases ws.len(),
{
    if ws.len() == 0 {
        q.len()
    } else {
        nat_max(distance_bound(q, ws.drop_last()), nat_max(q.len(), ws.last().name@.len()))
    }
}

/// The ranked candidate list: every name for the empty query, in entry
/// order; otherwise every name, by ascending edit distance to the query,
/// ties broken by entry order.
pub open spec fn rank_spec(q: Seq<char>, ws: Seq<Workspace>) -> Seq<Seq<char>> {
    if q.len() == 0 {
        names_of(ws)
    } else {
        ranked_up_to(q, ws, distance_bound(q, ws) as int)
    }
}

/// No name is farther from `q` than `distance_bound` allows.
pub proof fn lemma_distance_bound(q: Seq<char>, ws: Seq<Workspace>)
    ensures
        forall|k: int|
            0 <= k < ws.len() ==> edit_distance(q, (#[trigger] ws[k]).name@) <= distance_bound(
                q,
                ws,
            ),
    decreases ws.len(),
{
    if ws.len() == 0 {
    } else {
        lemma_distance_bound(q, ws.drop_last());
        lemma_edit_distance_le_max(q, ws.last().name@);
        assert(forall|k: int| 0 <= k < ws.len() - 1 ==> ws.drop_last()[k] == ws[k]);
    }
}

/// Appending an entry appends its name to the bucket of its distance and
/// leaves every other bucket alone; over all buckets up to `d`, that is one
/// more copy of the name whenever its distance is within `d`.
proof fn lemma_ranked_up_to_push(q: Seq<char>, ws: Seq<Workspace>, w: Workspace, d: int)
    ensures
        ranked_up_to(q, ws.push(w), d).to_multiset() == if edit_distance(q, w.name@) <= d {
            ranked_up_to(q, ws, d).to_multiset().insert(w.name@)
        } else {
            ranked_up_to(q, ws, d).to_multiset()
        },
    decreases d + 1,
{
    broadcast use vstd::seq_lib::group_to_multiset_ensures;

    if d < 0 {
    } else {
        lemma_ranked_up_to_push(q, ws, w, d - 1);
        let e = ws.push(w);
        assert(e.drop_last() =~= ws);
        assert(e.last() == w);
        let r0 = ranked_up_to(q, ws, d - 1);
        let b = bucket(q, ws, d as nat);
        let r0p = ranked_up_to(q, e, d - 1);
        let bp = bucket(q, e, d as nat);
        vstd::seq_lib::lemma_multiset_commutative(r0, b);
        vstd::seq_lib::lemma_multiset_commutative(r0p, bp);
        if edit_distance(q, w.name@) == d {
            assert(bp =~= b.push(w.name@));
            assert(bp.to_multiset() == b.to_multiset().insert(w.name@));
            assert(ranked_up_to(q, e, d).to_multiset() =~= ranked_up_to(
                q,
                ws,
                d,
            ).to_multiset().insert(w.name@));
        } else {
            assert(bp =~= b);
            if edit_distance(q, w.name@) <= d - 1 {
                assert(ranked_up_to(q, e, d).to_multiset() =~= ranked_up_to(
                    q,
                    ws,
                    d,
                ).to_multiset().insert(w.name@));
            } else {
                assert(ranked_up_to(q, e, d).to_multiset() =~= ranked_up_to(q, ws, d).to_multiset());
            }
        }
    }
}

/// Up to a bound that covers every entry, the grouped names are exactly the
/// entries' names, as a multiset.
proof fn lemma_ranked_up_to_multiset(q: Seq<char>, ws: Seq<Workspace>, d: int)
    requires
        forall|k: int| 0 <= k < ws.len() ==> edit_distance(q, (#[trigger] ws[k]).name@) <= d,
    ensures
        ranked_up_to(q, ws, d).to_multiset() == names_of(ws).to_multiset(),
    decreases ws.len(),
{
    broadcast use vstd::seq_lib::group_to_multiset_ensures;

    if ws.len() == 0 {
        assert(ranked_up_to(q, ws, d).to_multiset() =~= names_of(ws).to_multiset()) by {
            lemma_ranked_up_to_empty(q, ws, d);
            assert(names_of(ws).len() == 0);
            assert(names_of(ws) =~= Seq::<Seq<char>>::empty());
        }
    } else {
        let wsd = ws.drop_last();
        let w = ws.last();
        assert(wsd.push(w) =~= ws);
        assert(forall|k: int| 0 <= k < wsd.len() ==> wsd[k] == ws[k]);
        lemma_ranked_up_to_multiset(q, wsd, d);
        lemma_ranked_up_to_push(q, wsd, w, d);
        assert(edit_distance(q, w.name@) <= d);
        assert(names_of(ws) =~= names_of(wsd).push(w.name@));
    }
}

/// With no entries, every group is empty.
proof fn lemma_ranked_up_to_empty(q: Seq<char>, ws: Seq<Workspace>, d: int)
    requires
        ws.len() == 0,
    ensures
        ranked_up_to(q, ws, d) =~= Seq::<Seq<char>>::empty(),
    decreases d + 1,
{
    if d < 0 {
    } else {
        lemma_ranked_up_to_empty(q, ws, d - 1);
    }
}

/// The ranking never invents or drops a candidate: for every query the
/// ranked names are a permutation of the entries' names, of the same
/// length and with the same members; for the empty query they are exactly
/// the names in entry order.
pub proof fn lemma_rank_permutes(q: Seq<char>, ws: Seq<Workspace>)
    ensures
        rank_spec(q, ws).to_multiset() == names_of(ws).to_multiset(),
        rank_spec(q, ws).len() == ws.len(),
        forall|x: Seq<char>| rank_spec(q, ws).contains(x) <==> names_of(ws).contains(x),
        q.len() == 0 ==> rank_spec(q, ws) == names_of(ws),
{
    broadcast use vstd::seq_lib::group_to_multiset_ensures;

    if q.len() == 0 {
    } else {
        lemma_distance_bound(q, ws);
        lemma_ranked_up_to_multiset(q, ws, distance_bound(q, ws) as int);
    }
    assert(names_of(ws).len() == ws.len());
    assert(rank_spec(q, ws).to_multiset().len() == names_of(ws).to_multiset().len());
    assert forall|x: Seq<char>| rank_spec(q, ws).contains(x) <==> names_of(ws).contains(
        x,
    ) by {
        assert(rank_spec(q, ws).contains(x) <==> rank_spec(q, ws).to_multiset().count(x) > 0);
        assert(names_of(ws).contains(x) <==> names_of(ws).to_multiset().count(x) > 0);
    }
}

/// Every name in a bucket lies at exactly that distance from the query.
proof fn lemma_bucket_elems(q: Seq<char>, ws: Seq<Workspace>, d: nat)
    ensures
        forall|p: int|
            0 <= p < bucket(q, ws, d).len() ==> edit_distance(q, #[trigger] bucket(q, ws, d)[p])
                == d,
    decreases ws.len(),
{
    if ws.len() == 0 {
    } else {
        lemma_bucket_elems(q, ws.drop_last(), d);
        let rest = bucket(q, ws.drop_last(), d);
        if edit_distance(q, ws.last().name@) == d {
            assert(bucket(q, ws, d) == rest.push(ws.last().name@));
            assert(forall|p: int| 0 <= p < rest.len() ==> bucket(q, ws, d)[p] == rest[p]);
            assert(bucket(q, ws, d)[rest.len() as int] == ws.last().name@);
        } else {
            assert(bucket(q, ws, d) == rest);
        }
    }
}

/// Every name grouped up to `d` lies within distance `d` of the query.
proof fn lemma_ranked_up_to_elems(q: Seq<char>, ws: Seq<Workspace>, d: int)
    ensures
        forall|p: int|
            0 <= p < ranked_up_to(q, ws, d).len() ==> edit_distance(
                q,
                #[trigger] ranked_up_to(q, ws, d)[p],
            ) <= d,
    decreases d + 1,
{
    if d < 0 {
    } else {
        lemma_ranked_up_to_elems(q, ws, d - 1);
        lemma_bucket_elems(q, ws, d as nat);
        let r0 = ranked_up_to(q, ws, d - 1);
        let b = bucket(q, ws, d as nat);
        assert(forall|p: int|
            0 <= p < r0.len() ==> ranked_up_to(q, ws, d)[p] == r0[p]);
        assert(forall|p: int|
            r0.len() <= p < r0.len() + b.len() ==> ranked_up_to(q, ws, d)[p] == b[p - r0.len()]);
    }
}

proof fn lemma_ranked_up_to_sorted(q: Seq<char>, ws: Seq<Workspace>, d: int, i: int, j: int)
    requires
        0 <= i <= j < ranked_up_to(q, ws, d).len(),
    ensures
        edit_distance(q, ranked_up_to(q, ws, d)[i]) <= edit_distance(q, ranked_up_to(q, ws, d)[j]),
    decreases d + 1,
{
    if d < 0 {
    } else {
        let r0 = ranked_up_to(q, ws, d - 1);
        let b = bucket(q, ws, d as nat);
        lemma_ranked_up_to_elems(q, ws, d - 1);
        lemma_bucket_elems(q, ws, d as nat);
        if j < r0.len() {
            lemma_ranked_up_to_sorted(q, ws, d - 1, i, j);
        } else {
            assert(ranked_up_to(q, ws, d)[j] == b[j - r0.len()]);
            assert(edit_distance(q, ranked_up_to(q, ws, d)[j]) == d);
            if i < r0.len() {
                assert(ranked_up_to(q, ws, d)[i] == r0[i]);
            } else {
                assert(ranked_up_to(q, ws, d)[i] == b[i - r0.len()]);
            }
        }
    }
}

/// Ascending order: for a non-empty query, an earlier ranked candidate is
/// never farther from the query than a later one.
pub proof fn lemma_rank_sorted(q: Seq<char>, ws: Seq<Workspace>, i: int, j: int)
    requires
        q.len() > 0,
        0 <= i <= j < rank_spec(q, ws).len(),
    ensures
        edit_distance(q, rank_spec(q, ws)[i]) <= edit_distance(q, rank_spec(q, ws)[j]),
{
    lemma_ranked_up_to_sorted(q, ws, distance_bound(q, ws) as int, i, j);
}

/// Ranks the entries' names for `query`: all of them, most similar first,
/// ties in entry order; for an empty query, all of them in entry order.
pub fn rank(query: &Vec<char>, entries: &Vec<Workspace>) -> (ranked: Vec<String>)
    requires
        query@.len() < usize::MAX,
        forall|k: int| 0 <= k < entries@.len() ==> (#[trigger] entries@[k]).name@.len()
            < usize::MAX,
    ensures
        ranked.deep_view() == rank_spec(query@, entries@),
{
    let n = entries.len();
    if query.len() == 0 {
        let mut out: Vec<String> = Vec::new();
        let mut i: usize = 0;
        while i < n
            invariant
                i <= n,
                n == entries@.len(),
                out.deep_view() == names_of(entries@.take(i as int)),
            decreases n - i,
        {
            let ghost pre = out.deep_view();
            out.push(entries[i].name.clone());
            proof {
                assert(out.deep_view() =~= pre.push(entries@[i as int].name@));
                assert(names_of(entries@.take(i + 1)) =~= pre.push(entries@[i as int].name@));
            }
            i = i + 1;
        }
        proof {
            assert(entries@.take(n as int) =~= entries@);
        }
        out
    } else {
        // Distances, one per entry.
        let mut dists: Vec<usize> = Vec::new();
        let mut i: usize = 0;
        while i < n
            invariant
                i <= n,
                n == entries@.len(),
                query@.len() < usize::MAX,
                forall|k: int| 0 <= k < entries@.len() ==> (#[trigger] entries@[k]).name@.len()
                    < usize::MAX,
                dists@.len() == i,
                forall|k: int|
                    0 <= k < i ==> dists@[k] == edit_distance(query@, entries@[k].name@),
            decreases n - i,
        {
            let name_chars = chars_of(entries[i].name.as_str());
            let d = levenshtein(query, &name_chars);
            dists.push(d);
            i = i + 1;
        }
        // A bound that no distance exceeds.
        let mut bound: usize = query.len();
        let mut i: usize = 0;
        while i < n
            invariant
                i <= n,
                n == entries@.len(),
                query@.len() < usize::MAX,
                forall|k: int| 0 <= k < entries@.len() ==> (#[trigger] entries@[k]).name@.len()
                    < usize::MAX,
                bound < usize::MAX,
                bound as nat == distance_bound(query@, entries@.take(i as int)),
            decreases n - i,
        {
            let nl = entries[i].name.as_str().unicode_len();
            let cand = if query.len() >= nl {
                query.len()
            } else {
                nl
            };
            proof {
                let t = entries@.take(i + 1);
                assert(t.drop_last() =~= entries@.take(i as int));
                assert(t.last() == entries@[i as int]);
            }
            if cand > bound {
                bound = cand;
            }
            i = i + 1;
        }
        proof {
            assert(entries@.take(n as int) =~= entries@);
        }
        // Collect the names by ascending distance, each group in entry order.
        let mut out: Vec<String> = Vec::new();
        proof {
            assert(out.deep_view() =~= ranked_up_to(query@, entries@, -1));
        }
        let mut d: usize = 0;
        while d <= bound
            invariant
                d <= bound + 1,
                n == entries@.len(),
                bound < usize::MAX,
                bound as nat == distance_bound(query@, entries@),
                dists@.len() == n,
                forall|k: int|
                    0 <= k < n ==> dists@[k] == edit_distance(query@, entries@[k].name@),
                out.deep_view() == ranked_up_to(query@, entries@, d as int - 1),
            decreases bound + 1 - d,
        {
            let mut i: usize = 0;
            while i < n
                invariant
                    i <= n,
                    d <= bound,
                    n == entries@.len(),
                    dists@.len() == n,
                    forall|k: int|
                        0 <= k < n ==> dists@[k] == edit_distance(query@, entries@[k].name@),
                    out.deep_view() == ranked_up_to(query@, entries@, d as int - 1) + bucket(
                        query@,
                        entries@.take(i as int),
                        d as nat,
                    ),
                decreases n - i,
            {
                let ghost pre = out.deep_view();
                if dists[i] == d {
                    out.push(entries[i].name.clone());
                }
                proof {
                    let t = entries@.take(i + 1);
                    assert(t.drop_last() =~= entries@.take(i as int));
                    assert(t.last() == entries@[i as int]);
                    if edit_distance(query@, entries@[i as int].name@) == d as nat {
                        assert(out.deep_view() =~= pre.push(entries@[i as int].name@));
                        assert(bucket(query@, t, d as nat) == bucket(
                            query@,
                            entries@.take(i as int),
                            d as nat,
                        ).push(entries@[i as int].name@));
                        assert(out.deep_view() =~= ranked_up_to(query@, entries@, d as int - 1)
                            + bucket(query@, t, d as nat));
                    } else {
                        assert(bucket(query@, t, d as nat) == bucket(
                            query@,
                            entries@.take(i as int),
                            d as nat,
                        ));
                    }
                }
                i = i + 1;
            }
            proof {
                assert(entries@.take(n as int) =~= entries@);
            }
            d = d + 1;
        }
        out
    }
}

} // verus!
