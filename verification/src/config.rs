//! The workspace store: named filesystem paths, and the management cores
//! (find, add, remove, list layout) over an in-memory snapshot of it.

use crate::distance::nat_max;
use vstd::prelude::*;

verus! {

use vstd::string::StrSliceExecFns;

/// A user-assigned name bound to a filesystem path.
#[derive(Clone)]
pub struct Workspace {
    pub name: String,
    pub path: String,
}

/// The in-memory store: the workspace entries plus the two file locations
/// the callers persist to (the store itself and the picker's result).
pub struct Config {
    pub workspaces: Vec<Workspace>,
    pub workspaces_file: String,
    pub result_file: String,
}

/// The names of the entries, in entry order.
pub open spec fn names_of(ws: Seq<Workspace>) -> Seq<Seq<char>> {
    ws.map_values(|w: Workspace| w.name@)
}

/// Index of the first entry called `n`, or `ws.len()` when none is.
pub open spec fn first_with_name(ws: Seq<Workspace>, n: Seq<char>) -> int
    decreases ws.len(),
{
    if ws.len() == 0 {
        0
    } else if ws[0].name@ == n {
        0
    } else {
        1 + first_with_name(ws.drop_first(), n)
    }
}

/// What `first_with_name` finds: the entry at the index is called `n`, no
/// earlier entry is, and the index runs off the end exactly when no entry
/// at all is called `n`.
pub proof fn lemma_first_with_name(ws: Seq<Workspace>, n: Seq<char>)
    ensures
        0 <= first_with_name(ws, n) <= ws.len(),
        first_with_name(ws, n) < ws.len() ==> ws[first_with_name(ws, n)].name@ == n,
        forall|j: int| 0 <= j < first_with_name(ws, n) ==> ws[j].name@ != n,
        (first_with_name(ws, n) == ws.len()) <==> !names_of(ws).contains(n),
    decreases ws.len(),
{
    if ws.len() == 0 {
        assert(names_of(ws).len() == 0);
    } else if ws[0].name@ == n {
        assert(names_of(ws)[0] == n);
    } else {
        lemma_first_with_name(ws.drop_first(), n);
        let f = first_with_name(ws, n);
        assert(forall|j: int|
            0 <= j < f ==> ws[j].name@ != n) by {
            assert(forall|j: int|
                1 <= j < f ==> ws.drop_first()[j - 1] == ws[j] && ws.drop_first()[j - 1].name@
                    != n);
        }
        if f == ws.len() {
            assert(forall|j: int| 0 <= j < names_of(ws).len() ==> names_of(ws)[j] != n);
            assert(!names_of(ws).contains(n));
        } else {
            assert(ws.drop_first()[f - 1] == ws[f]);
            assert(names_of(ws)[f] == n);
            assert(names_of(ws).contains(n));
        }
    }
}

/// `first_with_name` is pinned by a scan: if nothing before `k` is called
/// `n`, and the entry at `k` is (or `k` is the length), then `k` is it.
pub proof fn lemma_first_with_name_is(ws: Seq<Workspace>, n: Seq<char>, k: int)
    requires
        0 <= k <= ws.len(),
        forall|j: int| 0 <= j < k ==> ws[j].name@ != n,
        k < ws.len() ==> ws[k].name@ == n,
    ensures
        first_with_name(ws, n) == k,
    decreases ws.len(),
{
    if ws.len() == 0 {
    } else if k == 0 {
    } else {
        assert(ws[0].name@ != n);
        assert(forall|j: int|
            0 <= j < k - 1 ==> ws.drop_first()[j] == ws[j + 1] && ws[j + 1].name@ != n);
        assert(k - 1 < ws.drop_first().len() ==> ws.drop_first()[k - 1] == ws[k]);
        lemma_first_with_name_is(ws.drop_first(), n, k - 1);
    }
}

/// Greatest name length among the entries, zero when there are none.
pub open spec fn max_name_len(ws: Seq<Workspace>) -> nat
    decreases ws.len(),
{
    if ws.len() == 0 {
        0
    } else {
        nat_max(max_name_len(ws.drop_last()), ws.last().name@.len())
    }
}

impl Config {
    /// Index of the first workspace called `name`, if any is.
    pub fn find_name(&self, name: &String) -> (r: Option<usize>)
        ensures
            match r {
                Some(i) => i == first_with_name(self.workspaces@, name@) && i
                    < self.workspaces@.len(),
                None => !names_of(self.workspaces@).contains(name@),
            },
    {
        let n = self.workspaces.len();
        let mut k: usize = 0;
        while k < n
            invariant
                k <= n,
                n == self.workspaces@.len(),
                forall|j: int| 0 <= j < k ==> self.workspaces@[j].name@ != name@,
            decreases n - k,
        {
            if self.workspaces[k].name == *name {
                proof {
                    lemma_first_with_name_is(self.workspaces@, name@, k as int);
                }
                return Some(k);
            }
            k = k + 1;
        }
        proof {
            lemma_first_with_name_is(self.workspaces@, name@, n as int);
            lemma_first_with_name(self.workspaces@, name@);
        }
        None
    }

    /// Appends a workspace called `name` at `path`, unless one with that
    /// name already exists; reports whether it was added.
    pub fn add_entry(&mut self, name: &String, path: String) -> (added: bool)
        ensures
            added <==> !names_of(old(self).workspaces@).contains(name@),
            added ==> final(self).workspaces@ == old(self).workspaces@.push(
                (Workspace { name: *name, path: path }),
            ),
            !added ==> final(self).workspaces@ == old(self).workspaces@,
            final(self).workspaces_file == old(self).workspaces_file,
            final(self).result_file == old(self).result_file,
    {
        match self.find_name(name) {
            Some(_) => {
                proof {
                    lemma_first_with_name(self.workspaces@, name@);
                }
                false
            },
            None => {
                self.workspaces.push(Workspace { name: name.clone(), path: path });
                true
            },
        }
    }

    /// Removes the first workspace called `name`, if any is; reports
    /// whether one was removed.
    pub fn remove_entry(&mut self, name: &String) -> (removed: bool)
        ensures
            removed <==> names_of(old(self).workspaces@).contains(name@),
            removed ==> final(self).workspaces@ == old(self).workspaces@.remove(
                first_with_name(old(self).workspaces@, name@),
            ),
            !removed ==> final(self).workspaces@ == old(self).workspaces@,
            final(self).workspaces_file == old(self).workspaces_file,
            final(self).result_file == old(self).result_file,
    {
        match self.find_name(name) {
            Some(i) => {
                proof {
                    lemma_first_with_name(self.workspaces@, name@);
                }
                self.workspaces.remove(i);
                true
            },
            None => false,
        }
    }

    /// Width of the name column when listing: the longest name plus four
    /// characters of padding.
    pub fn label_width(&self) -> (w: usize)
        requires
            self.workspaces@.len() > 0,
            max_name_len(self.workspaces@) + 4 <= usize::MAX,
        ensures
            w == max_name_len(self.workspaces@) + 4,
    {
        let n = self.workspaces.len();
        let mut acc: usize = 0;
        let mut k: usize = 0;
        while k < n
            invariant
                k <= n,
                n == self.workspaces@.len(),
                acc as nat == max_name_len(self.workspaces@.take(k as int)),
                max_name_len(self.workspaces@) + 4 <= usize::MAX,
            decreases n - k,
        {
            let len_k = self.workspaces[k].name.as_str().unicode_len();
            proof {
                let t = self.workspaces@.take(k + 1);
                assert(t.drop_last() =~= self.workspaces@.take(k as int));
                assert(t.last() == self.workspaces@[k as int]);
            }
            if len_k > acc {
                acc = len_k;
            }
            k = k + 1;
        }
        proof {
            assert(self.workspaces@.take(n as int) =~= self.workspaces@);
        }
        acc + 4
    }
}

} // verus!
