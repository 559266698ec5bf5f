//! The interactive picker session: a query buffer, the ranked candidate
//! list and a highlight cursor, driven by classified key events until a
//! confirm or cancel ends the session.

use crate::config::{first_with_name, lemma_first_with_name, names_of, Workspace};
use crate::rank::{lemma_rank_permutes, rank, rank_spec};
use crate::text::push_char;
use vstd::prelude::*;

verus! {

/// A classified key event: a printable character, one of the named
/// actions, or anything else (which the session ignores).
#[derive(Clone, Copy, Debug, PartialEq, Eq, Structural)]
pub enum Key {
    Char(char),
    Backspace,
    Up,
    Down,
    Confirm,
    Cancel,
    Other,
}

/// The controller's phase: a session edits until a confirm or cancel
/// moves it to a terminal phase.
#[derive(Clone, Copy, Debug, PartialEq, Eq, Structural)]
pub enum Phase {
    Editing,
    Confirmed,
    Cancelled,
}

/// The session's state, abstracted to mathematical values.
#[verifier::ext_equal]
pub struct Model {
    pub query: Seq<char>,
    pub ranked: Seq<Seq<char>>,
    pub highlight: int,
    pub phase: Phase,
    pub chosen: Option<Seq<char>>,
}

/// One controller transition. Keys act only while editing: a printable
/// character is appended to the query (while the machine can hold it) and
/// the highlight returns to the top; backspace drops the last query
/// character, if any, and then also returns the highlight to the top;
/// up and down move the highlight, saturating at the ends of the list;
/// confirm captures the highlighted candidate, unless the list is empty or
/// the startup guard window is still open; cancel always ends the session.
pub open spec fn step(m: Model, key: Key, elapsed_ms: u64, guard_ms: u64) -> Model {
    if !(m.phase is Editing) {
        m
    } else {
        match key {
            Key::Char(c) => if m.query.len() + 2 <= usize::MAX {
                Model { query: m.query.push(c), highlight: 0, ..m }
            } else {
                m
            },
            Key::Backspace => if m.query.len() > 0 {
                Model { query: m.query.drop_last(), highlight: 0, ..m }
            } else {
                m
            },
            Key::Up => Model {
                highlight: if m.highlight > 0 {
                    m.highlight - 1
                } else {
                    0
                },
                ..m
            },
            Key::Down => Model {
                highlight: if m.ranked.len() == 0 {
                    m.highlight
                } else if m.highlight + 1 < m.ranked.len() {
                    m.highlight + 1
                } else {
                    m.ranked.len() - 1
                },
                ..m
            },
            Key::Confirm => if elapsed_ms < guard_ms || m.ranked.len() == 0 {
                m
            } else {
                Model {
                    phase: Phase::Confirmed,
                    chosen: Some(m.ranked[m.highlight]),
                    ..m
                }
            },
            Key::Cancel => Model { phase: Phase::Cancelled, ..m },
            Key::Other => m,
        }
    }
}

/// A batch of transitions, applied in arrival order.
pub open spec fn steps(m: Model, keys: Seq<Key>, elapsed_ms: u64, guard_ms: u64) -> Model
    decreases keys.len(),
{
    if keys.len() == 0 {
        m
    } else {
        steps(step(m, keys[0], elapsed_ms, guard_ms), keys.drop_first(), elapsed_ms, guard_ms)
    }
}

/// Re-ranking after a query change: the candidate list becomes the ranking
/// of the current query and the highlight is clamped into its range.
pub open spec fn rerank(m: Model, entries: Seq<Workspace>) -> Model {
    let r = rank_spec(m.query, entries);
    Model {
        ranked: r,
        highlight: if r.len() == 0 {
            0
        } else if m.highlight < r.len() {
            m.highlight
        } else {
            r.len() - 1
        },
        ..m
    }
}

/// What one driver tick does to the state: the batch of events in order,
/// then one re-rank pass if the query text changed.
pub open spec fn batch_model(
    m: Model,
    keys: Seq<Key>,
    elapsed_ms: u64,
    guard_ms: u64,
    entries: Seq<Workspace>,
) -> Model {
    let s = steps(m, keys, elapsed_ms, guard_ms);
    if s.query == m.query {
        s
    } else {
        rerank(s, entries)
    }
}

/// The session's result: the path of the first entry whose name is the
/// captured candidate, or nothing when no candidate was captured.
pub open spec fn outcome(m: Model, entries: Seq<Workspace>) -> Option<Seq<char>> {
    match m.chosen {
        Some(c) => if names_of(entries).contains(c) {
            Some(entries[first_with_name(entries, c)].path@)
        } else {
            None
        },
        None => None,
    }
}

/// One rendered line of a frame: its text, and whether it is drawn in the
/// highlight style.
pub struct Line {
    pub text: String,
    pub highlighted: bool,
}

/// One run of the interactive picker over an immutable snapshot of the
/// workspace entries.
pub struct Session {
    pub entries: Vec<Workspace>,
    pub query: Vec<char>,
    pub ranked: Vec<String>,
    pub highlight: usize,
    pub phase: Phase,
    pub chosen: Option<String>,
    pub confirm_guard_ms: u64,
}

impl Session {
    /// The session's state, abstracted to mathematical values.
    pub open spec fn model(self) -> Model {
        Model {
            query: self.query@,
            ranked: self.ranked.deep_view(),
            highlight: self.highlight as int,
            phase: self.phase,
            chosen: match self.chosen {
                Some(c) => Some(c@),
                None => None,
            },
        }
    }

    /// Structural soundness, kept by every transition: the highlight stays
    /// inside the candidate list and sits at zero when the list is empty;
    /// a candidate is captured exactly in the confirmed phase, and it is
    /// the name of some entry; every listed candidate is the name of some
    /// entry; and the query still has room to grow on this machine.
    pub open spec fn wf(self) -> bool {
        &&& if self.ranked@.len() == 0 {
            self.highlight == 0
        } else {
            (self.highlight as int) < self.ranked@.len()
        }
        &&& (self.phase is Confirmed <==> self.chosen is Some)
        &&& match self.chosen {
            Some(c) => names_of(self.entries@).contains(c@),
            None => true,
        }
        &&& forall|k: int|
            0 <= k < self.ranked@.len() ==> names_of(self.entries@).contains(
                (#[trigger] self.ranked@[k])@,
            )
        &&& self.query@.len() < usize::MAX
        &&& forall|k: int|
            0 <= k < self.entries@.len() ==> (#[trigger] self.entries@[k]).name@.len() < usize::MAX
    }

    /// The candidate list is not stale: it is the ranking of the current
    /// query over the entries.
    pub open spec fn synced(self) -> bool {
        self.ranked.deep_view() == rank_spec(self.query@, self.entries@)
    }

    /// Starts a session over a snapshot of the entries: empty query, every
    /// name listed in entry order, highlight on the first candidate.
    pub fn new(entries: Vec<Workspace>, confirm_guard_ms: u64) -> (s: Session)
        requires
            forall|k: int|
                0 <= k < entries@.len() ==> (#[trigger] entries@[k]).name@.len() < usize::MAX,
        ensures
            s.wf(),
            s.synced(),
            s.entries@ == entries@,
            s.query@ == Seq::<char>::empty(),
            s.ranked.deep_view() == names_of(entries@),
            s.highlight == 0,
            s.phase is Editing,
            s.chosen is None,
            s.confirm_guard_ms == confirm_guard_ms,
    {
        let query: Vec<char> = Vec::new();
        let ranked = rank(&query, &entries);
        proof {
            lemma_rank_permutes(query@, entries@);
            assert forall|k: int| 0 <= k < ranked@.len() implies names_of(entries@).contains(
                (#[trigger] ranked@[k])@,
            ) by {
                assert(ranked.deep_view()[k] == ranked@[k]@);
                assert(ranked.deep_view().contains(ranked.deep_view()[k]));
            }
        }
        Session {
            entries,
            query,
            ranked,
            highlight: 0,
            phase: Phase::Editing,
            chosen: None,
            confirm_guard_ms,
        }
    }

    /// Applies one classified key event, as the transition table says;
    /// the candidate list itself is left alone (the driver re-ranks once
    /// per batch).
    pub fn handle_key(&mut self, key: Key, elapsed_ms: u64)
        requires
            old(self).wf(),
        ensures
            final(self).wf(),
            final(self).model() == step(
                old(self).model(),
                key,
                elapsed_ms,
                old(self).confirm_guard_ms,
            ),
            final(self).entries@ == old(self).entries@,
            final(self).ranked@ == old(self).ranked@,
            final(self).confirm_guard_ms == old(self).confirm_guard_ms,
    {
        if matches!(self.phase, Phase::Editing) {
            match key {
                Key::Char(c) => {
                    if self.query.len() < usize::MAX - 1 {
                        self.query.push(c);
                        self.highlight = 0;
                    }
                },
                Key::Backspace => {
                    if self.query.len() > 0 {
                        self.query.pop();
                        self.highlight = 0;
                    }
                },
                Key::Up => {
                    if self.highlight > 0 {
                        self.highlight = self.highlight - 1;
                    }
                },
                Key::Down => {
                    if self.ranked.len() > 0 {
                        if self.highlight + 1 < self.ranked.len() {
                            self.highlight = self.highlight + 1;
                        } else {
                            self.highlight = self.ranked.len() - 1;
                        }
                    }
                },
                Key::Confirm => {
                    if elapsed_ms >= self.confirm_guard_ms && self.ranked.len() > 0 {
                        self.chosen = Some(self.ranked[self.highlight].clone());
                        self.phase = Phase::Confirmed;
                    }
                },
                Key::Cancel => {
                    self.phase = Phase::Cancelled;
                },
                Key::Other => {},
            }
        }
        proof {
            assert(self.model() =~= step(
                old(self).model(),
                key,
                elapsed_ms,
                old(self).confirm_guard_ms,
            ));
        }
    }

    /// Recomputes the candidate list for the current query and clamps the
    /// highlight into its range.
    pub fn refresh_ranking(&mut self)
        requires
            old(self).wf(),
        ensures
            final(self).wf(),
            final(self).synced(),
            final(self).model() == rerank(old(self).model(), old(self).entries@),
            final(self).entries@ == old(self).entries@,
            final(self).confirm_guard_ms == old(self).confirm_guard_ms,
    {
        let ranked = rank(&self.query, &self.entries);
        self.ranked = ranked;
        if self.ranked.len() == 0 {
            self.highlight = 0;
        } else if self.highlight >= self.ranked.len() {
            self.highlight = self.ranked.len() - 1;
        }
        proof {
            lemma_rank_permutes(self.query@, self.entries@);
            assert forall|k: int| 0 <= k < self.ranked@.len() implies names_of(
                self.entries@,
            ).contains((#[trigger] self.ranked@[k])@) by {
                assert(self.ranked.deep_view()[k] == self.ranked@[k]@);
                assert(self.ranked.deep_view().contains(self.ranked.deep_view()[k]));
            }
            assert(self.model() =~= rerank(old(self).model(), old(self).entries@));
        }
    }

    /// One driver tick: applies the batch of events in arrival order,
    /// then re-ranks and clamps the highlight if the query text was
    /// edited during the batch.
    pub fn process_batch(&mut self, keys: &Vec<Key>, elapsed_ms: u64)
        requires
            old(self).wf(),
            old(self).synced(),
        ensures
            final(self).wf(),
            final(self).synced(),
            final(self).model() == batch_model(
                old(self).model(),
                keys@,
                elapsed_ms,
                old(self).confirm_guard_ms,
                old(self).entries@,
            ),
            final(self).entries@ == old(self).entries@,
            final(self).confirm_guard_ms == old(self).confirm_guard_ms,
    {
        let ghost m0 = self.model();
        let ghost g = self.confirm_guard_ms;
        let mut edited = false;
        let mut k: usize = 0;
        while k < keys.len()
            invariant
                k <= keys@.len(),
                self.wf(),
                self.entries@ == old(self).entries@,
                self.confirm_guard_ms == old(self).confirm_guard_ms,
                self.ranked@ == old(self).ranked@,
                g == old(self).confirm_guard_ms,
                m0 == old(self).model(),
                old(self).synced(),
                self.model() == steps(m0, keys@.take(k as int), elapsed_ms, g),
                !edited ==> self.query@ == old(self).query@,
            decreases keys@.len() - k,
        {
            let key = keys[k];
            match key {
                Key::Char(_) => {
                    edited = true;
                },
                Key::Backspace => {
                    edited = true;
                },
                _ => {},
            }
            self.handle_key(key, elapsed_ms);
            proof {
                assert(keys@.take(k + 1) =~= keys@.take(k as int).push(keys@[k as int]));
                lemma_steps_snoc(m0, keys@.take(k as int), keys@[k as int], elapsed_ms, g);
            }
            k = k + 1;
        }
        proof {
            assert(keys@.take(keys@.len() as int) =~= keys@);
        }
        let ghost s = steps(m0, keys@, elapsed_ms, g);
        if edited {
            let ghost before = self.model();
            self.refresh_ranking();
            proof {
                if s.query == m0.query {
                    // The edits cancelled out: the list was already the
                    // ranking of this query and the highlight was already
                    // in range, so the re-rank pass changed nothing.
                    assert(rerank(s, old(self).entries@) =~= s);
                }
            }
        } else {
            proof {
                assert(self.model() == s && s.query == m0.query);
            }
        }
    }

    /// The session's result: on confirm, the path of the first entry whose
    /// name is the captured candidate; on cancel (or while editing),
    /// nothing.
    pub fn finish(&self) -> (r: Option<String>)
        requires
            self.wf(),
        ensures
            match r {
                Some(p) => Some(p@) == outcome(self.model(), self.entries@),
                None => outcome(self.model(), self.entries@) is None,
            },
            r is Some <==> self.phase is Confirmed,
    {
        match &self.chosen {
            Some(name) => {
                let n = self.entries.len();
                let mut k: usize = 0;
                while k < n
                    invariant
                        k <= n,
                        n == self.entries@.len(),
                        self.wf(),
                        self.chosen == Some(*name),
                        forall|j: int| 0 <= j < k ==> self.entries@[j].name@ != name@,
                        names_of(self.entries@).contains(name@),
                    decreases n - k,
                {
                    if self.entries[k].name == *name {
                        proof {
                            crate::config::lemma_first_with_name_is(
                                self.entries@,
                                name@,
                                k as int,
                            );
                        }
                        return Some(self.entries[k].path.clone());
                    }
                    k = k + 1;
                }
                proof {
                    crate::config::lemma_first_with_name_is(self.entries@, name@, n as int);
                    lemma_first_with_name(self.entries@, name@);
                }
                unreached()
            },
            None => None,
        }
    }

    /// The frame to draw: a prompt line showing the query behind a `> `
    /// marker, then one line per candidate in ranked order, with exactly
    /// the highlighted candidate marked for the highlight style.
    pub fn render_frame(&self) -> (lines: Vec<Line>)
        requires
            self.wf(),
        ensures
            lines@.len() == 1 + self.ranked@.len(),
            lines@[0].text@ == seq!['>', ' '] + self.query@,
            !lines@[0].highlighted,
            forall|k: int|
                1 <= k < lines@.len() ==> (#[trigger] lines@[k]).text@ == self.ranked@[k - 1]@,
            forall|k: int|
                1 <= k < lines@.len() ==> ((#[trigger] lines@[k]).highlighted <==> k - 1
                    == self.highlight as int && self.ranked@.len() > 0),
    {
        let mut prompt = String::new();
        push_char(&mut prompt, '>');
        push_char(&mut prompt, ' ');
        let mut qi: usize = 0;
        while qi < self.query.len()
            invariant
                qi <= self.query@.len(),
                prompt@ == seq!['>', ' '] + self.query@.take(qi as int),
            decreases self.query@.len() - qi,
        {
            push_char(&mut prompt, self.query[qi]);
            proof {
                assert(prompt@ =~= seq!['>', ' '] + self.query@.take(qi + 1));
            }
            qi = qi + 1;
        }
        proof {
            assert(self.query@.take(self.query@.len() as int) =~= self.query@);
        }
        let mut lines: Vec<Line> = Vec::new();
        lines.push(Line { text: prompt, highlighted: false });
        let mut k: usize = 0;
        while k < self.ranked.len()
            invariant
                k <= self.ranked@.len(),
                lines@.len() == 1 + k,
                lines@[0].text@ == seq!['>', ' '] + self.query@,
                !lines@[0].highlighted,
                self.wf(),
                forall|j: int|
                    1 <= j < lines@.len() ==> (#[trigger] lines@[j]).text@ == self.ranked@[j - 1]@,
                forall|j: int|
                    1 <= j < lines@.len() ==> ((#[trigger] lines@[j]).highlighted <==> j - 1
                        == self.highlight as int && self.ranked@.len() > 0),
            decreases self.ranked@.len() - k,
        {
            let highlighted = k == self.highlight;
            lines.push(Line { text: self.ranked[k].clone(), highlighted });
            k = k + 1;
        }
        lines
    }
}

/// Batches act one event at a time: processing a batch and then one more
/// event is the same as processing the longer batch.
pub proof fn lemma_steps_snoc(m: Model, keys: Seq<Key>, key: Key, elapsed_ms: u64, guard_ms: u64)
    ensures
        steps(m, keys.push(key), elapsed_ms, guard_ms) == step(
            steps(m, keys, elapsed_ms, guard_ms),
            key,
            elapsed_ms,
            guard_ms,
        ),
    decreases keys.len(),
{
    if keys.len() == 0 {
        assert(keys.push(key)[0] == key);
        assert(keys.push(key).drop_first() =~= Seq::<Key>::empty());
    } else {
        assert(keys.push(key)[0] == keys[0]);
        assert(keys.push(key).drop_first() =~= keys.drop_first().push(key));
        lemma_steps_snoc(step(m, keys[0], elapsed_ms, guard_ms), keys.drop_first(), key, elapsed_ms, guard_ms);
    }
}

/// Moving up at the top of the list, or down at its bottom, changes
/// nothing, however often it is repeated.
pub proof fn lemma_nav_idempotent(m: Model, elapsed_ms: u64, guard_ms: u64)
    requires
        m.phase is Editing,
    ensures
        m.highlight == 0 ==> step(m, Key::Up, elapsed_ms, guard_ms) == m,
        m.ranked.len() > 0 && m.highlight == m.ranked.len() - 1 ==> step(
            m,
            Key::Down,
            elapsed_ms,
            guard_ms,
        ) == m,
        m.ranked.len() == 0 && m.highlight == 0 ==> step(m, Key::Down, elapsed_ms, guard_ms) == m,
{
    if m.highlight == 0 {
        assert(step(m, Key::Up, elapsed_ms, guard_ms) =~= m);
    }
    if m.ranked.len() > 0 && m.highlight == m.ranked.len() - 1 {
        assert(step(m, Key::Down, elapsed_ms, guard_ms) =~= m);
    }
    if m.ranked.len() == 0 && m.highlight == 0 {
        assert(step(m, Key::Down, elapsed_ms, guard_ms) =~= m);
    }
}

/// Any transition that changes the query text puts the highlight back at
/// the top of the list.
pub proof fn lemma_edit_resets_highlight(m: Model, key: Key, elapsed_ms: u64, guard_ms: u64)
    ensures
        step(m, key, elapsed_ms, guard_ms).query != m.query ==> step(
            m,
            key,
            elapsed_ms,
            guard_ms,
        ).highlight == 0,
{
}

/// Cancelling ends the session with no result, whatever the query text or
/// the highlight position.
pub proof fn lemma_cancel_yields_none(
    m: Model,
    entries: Seq<Workspace>,
    elapsed_ms: u64,
    guard_ms: u64,
)
    requires
        m.phase is Editing,
        m.chosen is None,
    ensures
        step(m, Key::Cancel, elapsed_ms, guard_ms).phase is Cancelled,
        outcome(step(m, Key::Cancel, elapsed_ms, guard_ms), entries) is None,
{
}

/// Confirming outside the startup guard window with a non-empty list ends
/// the session confirmed, capturing the highlighted candidate; with an
/// empty list it changes nothing.
pub proof fn lemma_confirm(m: Model, elapsed_ms: u64, guard_ms: u64)
    requires
        m.phase is Editing,
        elapsed_ms >= guard_ms,
    ensures
        m.ranked.len() > 0 ==> step(m, Key::Confirm, elapsed_ms, guard_ms).phase is Confirmed
            && step(m, Key::Confirm, elapsed_ms, guard_ms).chosen == Some(m.ranked[m.highlight]),
        m.ranked.len() == 0 ==> step(m, Key::Confirm, elapsed_ms, guard_ms) == m,
{
}

/// Confirming inside the startup guard window is ignored.
pub proof fn lemma_confirm_guarded(m: Model, elapsed_ms: u64, guard_ms: u64)
    requires
        elapsed_ms < guard_ms,
    ensures
        step(m, Key::Confirm, elapsed_ms, guard_ms) == m,
{
}

} // verus!
