//! The stored form of the workspace list: one `name,path` line per entry,
//! parsing and serialising it, and the by-name ordering of the entries.

use crate::config::{Config, Workspace};
use crate::text::{chars_of, push_char, string_from_chars};
use vstd::prelude::*;

verus! {

use vstd::string::StrSliceExecFns;
use vstd::string::StringExecFns;

/// The stored line for one entry: name, a comma, path.
pub open spec fn line_of(w: Workspace) -> Seq<char> {
    w.name@ + seq![','] + w.path@
}

/// The stored text: the entries' lines joined by newlines, no trailing
/// newline.
pub open spec fn file_text(ws: Seq<Workspace>) -> Seq<char>
    decreases ws.len(),
{
    if ws.len() == 0 {
        Seq::empty()
    } else if ws.len() == 1 {
        line_of(ws[0])
    } else {
        file_text(ws.drop_last()) + seq!['\n'] + line_of(ws.last())
    }
}

/// Splitting `t` at `sep` with `cur` the piece read so far: the pieces, in
/// order, separators dropped.
pub open spec fn split_acc(t: Seq<char>, sep: char, cur: Seq<char>) -> Seq<Seq<char>>
    decreases t.len(),
{
    if t.len() == 0 {
        seq![cur]
    } else if t[0] == sep {
        seq![cur] + split_acc(t.drop_first(), sep, Seq::empty())
    } else {
        split_acc(t.drop_first(), sep, cur.push(t[0]))
    }
}

/// The pieces of `t` between occurrences of `sep`; no pieces at all for
/// empty text.
pub open spec fn split_on(t: Seq<char>, sep: char) -> Seq<Seq<char>> {
    if t.len() == 0 {
        Seq::empty()
    } else {
        split_acc(t, sep, Seq::empty())
    }
}

/// The name and path a stored line carries: the piece before the first
/// comma, and the piece between the first and second (or the line's end).
pub open spec fn pair_of_line(l: Seq<char>) -> (Seq<char>, Seq<char>) {
    (split_on(l, ',')[0], split_on(l, ',')[1])
}

/// One pair per non-empty line, in order.
pub open spec fn pairs_of_lines(ls: Seq<Seq<char>>) -> Seq<(Seq<char>, Seq<char>)>
    decreases ls.len(),
{
    if ls.len() == 0 {
        Seq::empty()
    } else {
        let rest = pairs_of_lines(ls.drop_first());
        if ls[0].len() == 0 {
            rest
        } else {
            seq![pair_of_line(ls[0])] + rest
        }
    }
}

/// What stored text denotes: the name and path pairs of its non-empty
/// lines, in order.
pub open spec fn parsed_pairs(t: Seq<char>) -> Seq<(Seq<char>, Seq<char>)> {
    pairs_of_lines(split_on(t, '\n'))
}

/// The entries' names and paths, in entry order.
pub open spec fn pairs_of(ws: Seq<Workspace>) -> Seq<(Seq<char>, Seq<char>)> {
    ws.map_values(|w: Workspace| (w.name@, w.path@))
}

/// Every non-empty line of `t` contains a comma, so each denotes a pair.
pub open spec fn lines_well_formed(t: Seq<char>) -> bool {
    forall|k: int|
        0 <= k < split_on(t, '\n').len() ==> ((#[trigger] split_on(t, '\n')[k]).len() > 0
            ==> split_on(t, '\n')[k].contains(','))
}

/// Splitting yields at least one piece, and at least two when the
/// separator occurs.
proof fn lemma_split_acc_len(t: Seq<char>, sep: char, cur: Seq<char>)
    ensures
        split_acc(t, sep, cur).len() >= 1,
        t.contains(sep) ==> split_acc(t, sep, cur).len() >= 2,
    decreases t.len(),
{
    if t.len() == 0 {
    } else if t[0] == sep {
        lemma_split_acc_len(t.drop_first(), sep, Seq::empty());
    } else {
        lemma_split_acc_len(t.drop_first(), sep, cur.push(t[0]));
        if t.contains(sep) {
            let i = choose|i: int| 0 <= i < t.len() && t[i] == sep;
            assert(i != 0);
            assert(t.drop_first()[i - 1] == sep);
            assert(t.drop_first().contains(sep));
        }
    }
}

/// Splits `t` at every occurrence of `sep`.
pub fn split_chars(t: &Vec<char>, sep: char) -> (out: Vec<Vec<char>>)
    ensures
        out.deep_view() == split_on(t@, sep),
{
    let mut out: Vec<Vec<char>> = Vec::new();
    if t.len() == 0 {
        proof {
            assert(out.deep_view() =~= split_on(t@, sep));
        }
        return out;
    }
    let mut cur: Vec<char> = Vec::new();
    proof {
        assert(t@.skip(0) =~= t@);
        assert(out.deep_view() + split_acc(t@, sep, cur@) =~~= split_acc(t@, sep, cur@));
    }
    let mut i: usize = 0;
    while i < t.len()
        invariant
            i <= t@.len(),
            t@.len() > 0,
            split_on(t@, sep) == out.deep_view() + split_acc(t@.skip(i as int), sep, cur@),
        decreases t@.len() - i,
    {
        let ghost pre_out = out.deep_view();
        let ghost pre_cur = cur@;
        let ghost rem = t@.skip(i as int);
        let c = t[i];
        proof {
            assert(rem[0] == t@[i as int]);
            assert(rem.drop_first() =~= t@.skip(i + 1));
        }
        if c == sep {
            out.push(cur);
            cur = Vec::new();
            proof {
                assert(out.deep_view() =~~= pre_out.push(pre_cur));
                assert(split_acc(rem, sep, pre_cur) == seq![pre_cur] + split_acc(
                    t@.skip(i + 1),
                    sep,
                    Seq::empty(),
                ));
                assert(cur@ =~= Seq::<char>::empty());
                assert(pre_out + (seq![pre_cur] + split_acc(t@.skip(i + 1), sep, Seq::empty()))
                    =~~= out.deep_view() + split_acc(t@.skip(i + 1), sep, cur@));
            }
        } else {
            cur.push(c);
            proof {
                assert(cur@ =~= pre_cur.push(t@[i as int]));
            }
        }
        i = i + 1;
    }
    proof {
        assert(t@.skip(t@.len() as int) =~= Seq::<char>::empty());
    }
    let ghost pre_out = out.deep_view();
    out.push(cur);
    proof {
        assert(out.deep_view() =~~= pre_out.push(cur@));
        assert(out.deep_view() =~~= split_on(t@, sep));
    }
    out
}

/// Parses stored text: one entry per non-empty line, name before the
/// first comma, path after it (up to a second comma, which ends the
/// path; anything beyond is dropped).
pub fn parse_store_text(text: &str) -> (ws: Vec<Workspace>)
    requires
        lines_well_formed(text@),
    ensures
        pairs_of(ws@) == parsed_pairs(text@),
{
    let tv = chars_of(text);
    let lines = split_chars(&tv, '\n');
    let mut ws: Vec<Workspace> = Vec::new();
    proof {
        assert(lines.deep_view().skip(0) =~= lines.deep_view());
        assert(pairs_of(ws@) + pairs_of_lines(lines.deep_view()) =~= pairs_of_lines(
            lines.deep_view(),
        ));
    }
    let mut i: usize = 0;
    while i < lines.len()
        invariant
            i <= lines@.len(),
            lines.deep_view() == split_on(text@, '\n'),
            lines_well_formed(text@),
            parsed_pairs(text@) == pairs_of(ws@) + pairs_of_lines(lines.deep_view().skip(i as int)),
        decreases lines@.len() - i,
    {
        let ghost rem = lines.deep_view().skip(i as int);
        proof {
            assert(rem[0] == lines.deep_view()[i as int]);
            assert(rem.drop_first() =~= lines.deep_view().skip(i + 1));
        }
        let line = &lines[i];
        proof {
            assert(line@ =~= lines.deep_view()[i as int]);
        }
        if line.len() > 0 {
            proof {
                assert(lines.deep_view()[i as int].contains(','));
                lemma_split_acc_len(line@, ',', Seq::<char>::empty());
            }
            let fields = split_chars(line, ',');
            let name = string_from_chars(&fields[0]);
            let path = string_from_chars(&fields[1]);
            let ghost pre = pairs_of(ws@);
            ws.push(Workspace { name, path });
            proof {
                assert(fields.deep_view()[0] == fields@[0]@);
                assert(fields.deep_view()[1] == fields@[1]@);
                assert(pairs_of(ws@) =~= pre.push(pair_of_line(lines.deep_view()[i as int])));
                assert(pairs_of_lines(rem) == seq![pair_of_line(rem[0])] + pairs_of_lines(
                    rem.drop_first(),
                ));
                assert(pre + (seq![pair_of_line(rem[0])] + pairs_of_lines(rem.drop_first()))
                    =~= pairs_of(ws@) + pairs_of_lines(lines.deep_view().skip(i + 1)));
            }
        }
        i = i + 1;
    }
    proof {
        assert(lines.deep_view().skip(lines@.len() as int) =~= Seq::<Seq<char>>::empty());
        assert(pairs_of(ws@) =~= pairs_of(ws@) + pairs_of_lines(Seq::<Seq<char>>::empty()));
    }
    ws
}

/// Serialises the entries into their stored text.
pub fn store_text(ws: &Vec<Workspace>) -> (s: String)
    ensures
        s@ == file_text(ws@),
{
    let mut s = String::new();
    let mut i: usize = 0;
    while i < ws.len()
        invariant
            i <= ws@.len(),
            s@ == file_text(ws@.take(i as int)),
        decreases ws@.len() - i,
    {
        let ghost pre = s@;
        if i > 0 {
            push_char(&mut s, '\n');
        }
        s.append(ws[i].name.as_str());
        push_char(&mut s, ',');
        s.append(ws[i].path.as_str());
        proof {
            let t = ws@.take(i + 1);
            assert(t.drop_last() =~= ws@.take(i as int));
            assert(t.last() == ws@[i as int]);
            assert(t[0] == ws@[0]);
            if i == 0 {
                assert(s@ =~= line_of(ws@[0]));
            } else {
                assert(s@ =~= file_text(ws@.take(i as int)) + seq!['\n'] + line_of(
                    ws@[i as int],
                ));
            }
        }
        i = i + 1;
    }
    proof {
        assert(ws@.take(ws@.len() as int) =~= ws@);
    }
    s
}

/// Lexicographic order on character sequences, by code point.
pub open spec fn lex_leq(a: Seq<char>, b: Seq<char>) -> bool
    decreases a.len(),
{
    if a.len() == 0 {
        true
    } else if b.len() == 0 {
        false
    } else if a[0] == b[0] {
        lex_leq(a.drop_first(), b.drop_first())
    } else {
        (a[0] as u32) < (b[0] as u32)
    }
}

/// Any two sequences compare one way or the other.
pub proof fn lemma_lex_total(a: Seq<char>, b: Seq<char>)
    ensures
        lex_leq(a, b) || lex_leq(b, a),
    decreases a.len(),
{
    if a.len() == 0 || b.len() == 0 {
    } else if a[0] == b[0] {
        lemma_lex_total(a.drop_first(), b.drop_first());
    } else {
        assert(lex_leq(a, b) == ((a[0] as u32) < (b[0] as u32)));
        assert(lex_leq(b, a) == ((b[0] as u32) < (a[0] as u32)));
        assert((a[0] as u32) != (b[0] as u32)) by {
            vstd::utf8::char_u32_cast(a[0], a[0] as u32);
            vstd::utf8::char_u32_cast(b[0], b[0] as u32);
        }
    }
}

/// The order chains: below and below is below.
pub proof fn lemma_lex_trans(a: Seq<char>, b: Seq<char>, c: Seq<char>)
    requires
        lex_leq(a, b),
        lex_leq(b, c),
    ensures
        lex_leq(a, c),
    decreases a.len(),
{
    if a.len() == 0 {
    } else if b.len() == 0 {
    } else if c.len() == 0 {
    } else if a[0] == b[0] && b[0] == c[0] {
        lemma_lex_trans(a.drop_first(), b.drop_first(), c.drop_first());
    }
}

/// Whether `a` comes no later than `b` in code-point order.
pub fn name_leq(a: &String, b: &String) -> (r: bool)
    ensures
        r == lex_leq(a@, b@),
{
    let alen = a.as_str().unicode_len();
    let blen = b.as_str().unicode_len();
    let mut i: usize = 0;
    proof {
        assert(a@.skip(0) =~= a@);
        assert(b@.skip(0) =~= b@);
    }
    loop
        invariant
            alen == a@.len(),
            blen == b@.len(),
            i <= alen,
            i <= blen,
            forall|j: int| 0 <= j < i ==> a@[j] == b@[j],
            lex_leq(a@, b@) == lex_leq(a@.skip(i as int), b@.skip(i as int)),
        decreases alen - i,
    {
        if i >= alen {
            proof {
                assert(a@.skip(i as int).len() == 0);
            }
            return true;
        }
        if i >= blen {
            proof {
                assert(b@.skip(i as int).len() == 0);
                assert(a@.skip(i as int).len() > 0);
            }
            return false;
        }
        let ca = a.as_str().get_char(i);
        let cb = b.as_str().get_char(i);
        proof {
            let sa = a@.skip(i as int);
            let sb = b@.skip(i as int);
            assert(sa[0] == a@[i as int] && sb[0] == b@[i as int]);
            assert(sa.drop_first() =~= a@.skip(i + 1));
            assert(sb.drop_first() =~= b@.skip(i + 1));
        }
        if ca == cb {
            i = i + 1;
        } else {
            return (ca as u32) < (cb as u32);
        }
    }
}

/// The entries stand in code-point order of their names.
pub open spec fn sorted_by_name(ws: Seq<Workspace>) -> bool {
    forall|i: int, j: int| 0 <= i < j < ws.len() ==> lex_leq(ws[i].name@, ws[j].name@)
}

/// Sorts the entries by name, in code-point order, keeping exactly the
/// same entries.
pub fn sort_by_name(ws: &mut Vec<Workspace>)
    ensures
        sorted_by_name(final(ws)@),
        final(ws)@.to_multiset() == old(ws)@.to_multiset(),
        pairs_of(final(ws)@).to_multiset() == pairs_of(old(ws)@).to_multiset(),
        final(ws)@.len() == old(ws)@.len(),
{
    broadcast use vstd::seq_lib::group_to_multiset_ensures;
    broadcast use vstd::multiset::group_multiset_axioms;

    if ws.len() <= 1 {
        return ;
    }
    let mut i: usize = 1;
    while i < ws.len()
        invariant
            1 <= i <= ws@.len(),
            ws@.len() == old(ws)@.len(),
            sorted_by_name(ws@.take(i as int)),
            ws@.to_multiset() == old(ws)@.to_multiset(),
            pairs_of(ws@).to_multiset() == pairs_of(old(ws)@).to_multiset(),
        decreases ws@.len() - i,
    {
        let mut k: usize = 0;
        let mut go = true;
        while go && k < i
            invariant
                0 <= k <= i,
                i < ws@.len(),
                forall|j: int| 0 <= j < k ==> lex_leq(ws@[j].name@, ws@[i as int].name@),
                !go ==> k < i && !lex_leq(ws@[k as int].name@, ws@[i as int].name@),
            decreases i - k + (if go {
                1int
            } else {
                0int
            }),
        {
            if name_leq(&ws[k].name, &ws[i].name) {
                k = k + 1;
            } else {
                go = false;
            }
        }
        let ghost prev = ws@;
        let w = ws.remove(i);
        let ghost mid = ws@;
        ws.insert(k, w);
        proof {
            assert(mid =~= prev.remove(i as int));
            assert(ws@ =~= mid.insert(k as int, w));
            assert(pairs_of(mid) =~= pairs_of(prev).remove(i as int));
            assert(pairs_of(ws@) =~= pairs_of(mid).insert(k as int, (w.name@, w.path@)));
            assert(pairs_of(prev)[i as int] == (w.name@, w.path@));
            assert(prev[i as int] == w);
            vstd::seq_lib::to_multiset_remove::<Workspace>(prev, i as int);
            vstd::seq_lib::to_multiset_insert::<Workspace>(mid, k as int, w);
            vstd::seq_lib::to_multiset_contains::<Workspace>(prev, w);
            assert(prev.contains(w));
            assert(ws@.to_multiset() =~= prev.to_multiset());
            let pw = (w.name@, w.path@);
            vstd::seq_lib::to_multiset_remove::<(Seq<char>, Seq<char>)>(pairs_of(prev), i as int);
            vstd::seq_lib::to_multiset_insert::<(Seq<char>, Seq<char>)>(pairs_of(mid), k as int, pw);
            vstd::seq_lib::to_multiset_contains::<(Seq<char>, Seq<char>)>(pairs_of(prev), pw);
            assert(pairs_of(prev).contains(pw));
            assert(pairs_of(ws@).to_multiset() =~= pairs_of(prev).to_multiset());
            assert forall|p: int, q: int| 0 <= p < q < i implies lex_leq(
                (#[trigger] prev[p]).name@,
                (#[trigger] prev[q]).name@,
            ) by {
                assert(prev.take(i as int)[p] == prev[p]);
                assert(prev.take(i as int)[q] == prev[q]);
                assert(lex_leq(prev.take(i as int)[p].name@, prev.take(i as int)[q].name@));
            }
            lemma_lex_total(prev[k as int].name@, w.name@);
            assert forall|p: int, q: int| 0 <= p < q < i + 1 implies lex_leq(
                (#[trigger] ws@.take(i + 1)[p]).name@,
                (#[trigger] ws@.take(i + 1)[q]).name@,
            ) by {
                // After the remove and insert, positions below `k` and the
                // stretch that was shifted up keep their old entries, and
                // position `k` holds the inserted one.
                assert(forall|j: int| 0 <= j <= i ==> ws@.take(i + 1)[j] == ws@[j]);
                assert(forall|j: int| 0 <= j < k ==> ws@[j] == prev[j]);
                assert(forall|j: int| k < j <= i ==> ws@[j] == prev[j - 1]);
                assert(ws@[k as int] == w);
                if k < i {
                    assert(!lex_leq(prev[k as int].name@, w.name@));
                    assert(lex_leq(w.name@, prev[k as int].name@));
                    assert forall|j: int| k <= j < i implies lex_leq(
                        w.name@,
                        prev[j].name@,
                    ) by {
                        if j > k {
                            assert(lex_leq(prev[k as int].name@, prev[j].name@));
                            lemma_lex_trans(w.name@, prev[k as int].name@, prev[j].name@);
                        }
                    }
                }
            }
            assert(sorted_by_name(ws@.take(i + 1)));
        }
        i = i + 1;
    }
    proof {
        assert(ws@.take(ws@.len() as int) =~= ws@);
    }
}

impl Config {
    /// Builds the in-memory store from the stored text and the two file
    /// locations: one entry per non-empty line, ordered by name.
    pub fn build(text: &str, workspaces_file: String, result_file: String) -> (c: Config)
        requires
            lines_well_formed(text@),
        ensures
            pairs_of(c.workspaces@).to_multiset() == parsed_pairs(text@).to_multiset(),
            sorted_by_name(c.workspaces@),
            c.workspaces_file == workspaces_file,
            c.result_file == result_file,
    {
        let mut workspaces = parse_store_text(text);
        sort_by_name(&mut workspaces);
        Config { workspaces, workspaces_file, result_file }
    }
}

} // verus!
