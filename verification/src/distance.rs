//! Bounded edit distance between workspace names and a query.

use vstd::prelude::*;

verus! {

/// The smaller of two naturals.
pub open spec fn nat_min(x: nat, y: nat) -> nat {
    if x <= y {
        x
    } else {
        y
    }
}

/// The larger of two naturals.
pub open spec fn nat_max(x: nat, y: nat) -> nat {
    if x >= y {
        x
    } else {
        y
    }
}

/// The smallest of three naturals.
pub open spec fn nat_min3(x: nat, y: nat, z: nat) -> nat {
    nat_min(x, nat_min(y, z))
}

/// Levenshtein edit distance: the least number of single-character
/// insertions, deletions and substitutions that turns `a` into `b`.
pub open spec fn edit_distance(a: Seq<char>, b: Seq<char>) -> nat
    decreases a.len() + b.len(),
{
    if a.len() == 0 {
        b.len()
    } else if b.len() == 0 {
        a.len()
    } else {
        let subst_cost: nat = if a.last() == b.last() {
            0
        } else {
            1
        };
        nat_min3(
            edit_distance(a.drop_last(), b.drop_last()) + subst_cost,
            edit_distance(a.drop_last(), b) + 1,
            edit_distance(a, b.drop_last()) + 1,
        )
    }
}

/// The distance never exceeds the longer of the two lengths: one can always
/// substitute along the shorter string and insert or delete the rest.
pub proof fn lemma_edit_distance_le_max(a: Seq<char>, b: Seq<char>)
    ensures
        edit_distance(a, b) <= nat_max(a.len(), b.len()),
    decreases a.len() + b.len(),
{
    if a.len() == 0 || b.len() == 0 {
    } else {
        lemma_edit_distance_le_max(a.drop_last(), b.drop_last());
    }
}

/// The distance is zero exactly on equal sequences.
pub proof fn lemma_edit_distance_zero(a: Seq<char>, b: Seq<char>)
    ensures
        edit_distance(a, b) == 0 <==> a =~= b,
    decreases a.len() + b.len(),
{
    if a.len() == 0 || b.len() == 0 {
    } else {
        lemma_edit_distance_zero(a.drop_last(), b.drop_last());
        if a =~= b {
            assert(a.drop_last() =~= b.drop_last());
        }
        if edit_distance(a, b) == 0 {
            assert(a == a.drop_last().push(a.last()));
            assert(b == b.drop_last().push(b.last()));
        }
    }
}

fn min_usize(x: usize, y: usize) -> (r: usize)
    ensures
        r == nat_min(x as nat, y as nat),
{
    if x <= y {
        x
    } else {
        y
    }
}

/// Computes the Levenshtein distance between `a` and `b` by the classic
/// row-by-row dynamic program.
pub fn levenshtein(a: &Vec<char>, b: &Vec<char>) -> (d: usize)
    requires
        a@.len() < usize::MAX,
        b@.len() < usize::MAX,
    ensures
        d == edit_distance(a@, b@),
{
    let m = a.len();
    let n = b.len();

    // Row for the empty prefix of `a`: turning "" into b.take(j) takes j insertions.
    let mut prev: Vec<usize> = Vec::new();
    let mut j: usize = 0;
    while j <= n
        invariant
            n == b@.len() < usize::MAX,
            j <= n + 1,
            prev@.len() == j,
            forall|k: int| 0 <= k < j ==> prev@[k] == edit_distance(Seq::<char>::empty(), b@.take(k)),
        decreases n + 1 - j,
    {
        proof {
            assert(b@.take(j as int).len() == j);
        }
        prev.push(j);
        j = j + 1;
    }

    let mut i: usize = 1;
    while i <= m
        invariant
            m == a@.len() < usize::MAX,
            n == b@.len() < usize::MAX,
            1 <= i <= m + 1,
            prev@.len() == n + 1,
            forall|k: int|
                0 <= k <= n ==> prev@[k] == edit_distance(a@.take(i - 1), b@.take(k)),
        decreases m + 1 - i,
    {
        let mut cur: Vec<usize> = Vec::new();
        proof {
            assert(a@.take(i as int).len() == i);
            assert(b@.take(0).len() == 0);
        }
        cur.push(i);
        let mut j: usize = 1;
        while j <= n
            invariant
                m == a@.len() < usize::MAX,
                n == b@.len() < usize::MAX,
                1 <= i <= m,
                1 <= j <= n + 1,
                prev@.len() == n + 1,
                cur@.len() == j,
                forall|k: int|
                    0 <= k <= n ==> prev@[k] == edit_distance(a@.take(i - 1), b@.take(k)),
                forall|k: int| 0 <= k < j ==> cur@[k] == edit_distance(a@.take(i as int), b@.take(k)),
            decreases n + 1 - j,
        {
            let cost: usize = if a[i - 1] == b[j - 1] {
                0
            } else {
                1
            };
            proof {
                let x = a@.take(i as int);
                let y = b@.take(j as int);
                assert(x.len() == i && y.len() == j);
                assert(x.drop_last() =~= a@.take(i - 1));
                assert(y.drop_last() =~= b@.take(j - 1));
                assert(x.last() == a@[i - 1]);
                assert(y.last() == b@[j - 1]);
                lemma_edit_distance_le_max(x, y.drop_last());
                lemma_edit_distance_le_max(x.drop_last(), y);
                lemma_edit_distance_le_max(x.drop_last(), y.drop_last());
            }
            let subst = prev[j - 1] + cost;
            let del = prev[j] + 1;
            let ins = cur[j - 1] + 1;
            let best = min_usize(subst, min_usize(del, ins));
            cur.push(best);
            j = j + 1;
        }
        prev = cur;
        i = i + 1;
    }
    proof {
        assert(a@.take(m as int) =~= a@);
        assert(b@.take(n as int) =~= b@);
    }
    prev[n]
}

} // verus!
