use vstd::prelude::*;

use crate::clock::time_now;
use crate::markov::{context_key, owned, registered_key, strings_view, Markov, MARKOV_N};
use crate::paths::{same_dir, same_path};
use crate::text::{decimal, push_decimal};

verus! {

/// How long a saved session stays valid: 12 hours.
pub const SESSION_EXPIRY_SECS: u64 = 43200;

/// How many directories a new session keeps.
pub const MAX_SIZE: usize = 10;

/// How long a saved session stack stays valid: one day.
pub const STACK_EXPIRY_SECS: u64 = 86400;

/// One directory of the short-term session.
pub struct SessionEntry {
    pub path: String,
}

/// Short-term memory: the directories of the current shell session, most
/// recent first, without repeats, at most `max_size` of them; when it was
/// saved; and a chain of the moves made within it. Directories are compared
/// by their components, as in `History`; the chain keys moves by their text.
pub struct Session {
    max_size: usize,
    entries: Vec<SessionEntry>,
    saved_at: u64,
    chain: Markov,
}

/// The context a move out of the current directory is keyed on: the session
/// directories after the current one, at most `MARKOV_N - 1` of them, most
/// recent first.
pub open spec fn session_context(paths: Seq<Seq<char>>) -> Seq<Seq<char>> {
    let end: int = if paths.len() < MARKOV_N { paths.len() as int } else { MARKOV_N as int };
    paths.subrange(1, end)
}

/// The session directories of `s`, most recent first.
pub open spec fn session_paths(s: Seq<SessionEntry>) -> Seq<Seq<char>> {
    s.map_values(|e: SessionEntry| e.path@)
}

/// `s` without any directory that `p` names (compared by components), the
/// rest in order.
pub open spec fn without(s: Seq<Seq<char>>, p: Seq<char>) -> Seq<Seq<char>>
    decreases s.len(),
{
    if s.len() == 0 {
        s
    } else if same_dir(s.last(), p) {
        without(s.drop_last(), p)
    } else {
        without(s.drop_last(), p).push(s.last())
    }
}

/// The session after `p` is pushed: unchanged when the directory `p` names
/// is already current; otherwise `p` first, then the others without that
/// directory, cut to `max` entries.
pub open spec fn pushed(s: Seq<Seq<char>>, p: Seq<char>, max: nat) -> Seq<Seq<char>> {
    if s.len() > 0 && same_dir(s[0], p) {
        s
    } else {
        let l = seq![p] + without(s, p);
        if l.len() > max {
            l.subrange(0, max as int)
        } else {
            l
        }
    }
}

/// No directory occurs twice in `s` (compared by components).
pub open spec fn distinct(s: Seq<Seq<char>>) -> bool {
    forall|i: int, j: int| 0 <= i < j < s.len() ==> !same_dir(#[trigger] s[i], #[trigger] s[j])
}

/// Some entry of `s` names the directory `p` names.
pub open spec fn holds_dir(s: Seq<Seq<char>>, p: Seq<char>) -> bool {
    exists|i: int| 0 <= i < s.len() && same_dir(#[trigger] s[i], p)
}

/// A well-kept stack: no directory twice and at most `max` of them.
pub open spec fn well_kept(s: Seq<Seq<char>>, max: nat) -> bool {
    distinct(s) && s.len() <= max
}

/// One line of the human-readable session: its 1-based position, a space,
/// the directory, and ` <-- current` after the first.
pub open spec fn session_line(i: nat, p: Seq<char>) -> Seq<char> {
    decimal(i + 1) + seq![' '] + p + if i == 0 {
        seq![' ', '<', '-', '-', ' ', 'c', 'u', 'r', 'r', 'e', 'n', 't']
    } else {
        Seq::<char>::empty()
    }
}

pub proof fn lemma_without_props(s: Seq<Seq<char>>, p: Seq<char>)
    ensures
        without(s, p).len() <= s.len(),
        forall|i: int| 0 <= i < without(s, p).len() ==> !same_dir(#[trigger] without(s, p)[i], p),
        forall|i: int| 0 <= i < without(s, p).len() ==> s.contains(#[trigger] without(s, p)[i]),
        forall|i: int| 0 <= i < s.len() && !same_dir(s[i], p) ==> without(s, p).contains(#[trigger] s[i]),
        distinct(s) ==> distinct(without(s, p)),
        (forall|i: int| 0 <= i < s.len() ==> !same_dir(#[trigger] s[i], p)) ==> without(s, p) == s,
    decreases s.len(),
{
    if s.len() > 0 {
        let d = s.drop_last();
        lemma_without_props(d, p);
        let w = without(s, p);
        let wd = without(d, p);
        assert forall|i: int| 0 <= i < w.len() implies s.contains(#[trigger] w[i]) by {
            if i < wd.len() {
                assert(d.contains(wd[i]));
                let k = choose|k: int| 0 <= k < d.len() && d[k] == wd[i];
                assert(s[k] == w[i]);
            } else {
                assert(w[i] == s[s.len() - 1]);
            }
        }
        assert forall|i: int| 0 <= i < w.len() implies !same_dir(#[trigger] w[i], p) by {
            if i < wd.len() {
                assert(w[i] == wd[i]);
            }
        }
        assert forall|i: int| 0 <= i < s.len() && !same_dir(s[i], p) implies w.contains(#[trigger] s[i]) by {
            if i < d.len() {
                assert(d[i] == s[i]);
                assert(wd.contains(d[i]));
                let k = choose|k: int| 0 <= k < wd.len() && wd[k] == d[i];
                assert(w[k] == s[i]);
            } else {
                assert(w[w.len() - 1] == s[i]);
            }
        }
        if distinct(s) {
            assert(distinct(d)) by {
                assert forall|i: int, j: int| 0 <= i < j < d.len() implies !same_dir(#[trigger] d[i], #[trigger] d[j]) by {
                    assert(d[i] == s[i] && d[j] == s[j]);
                }
            }
            if !same_dir(s.last(), p) {
                assert forall|i: int, j: int| 0 <= i < j < w.len() implies !same_dir(#[trigger] w[i], #[trigger] w[j]) by {
                    if j == w.len() - 1 {
                        assert(w[i] == wd[i]);
                        assert(d.contains(wd[i]));
                        let k = choose|k: int| 0 <= k < d.len() && d[k] == wd[i];
                        assert(s[k] == wd[i]);
                        assert(!same_dir(s[k], s[s.len() - 1]));
                    } else {
                        assert(w[i] == wd[i] && w[j] == wd[j]);
                    }
                }
            }
        }
        if forall|i: int| 0 <= i < s.len() ==> !same_dir(#[trigger] s[i], p) {
            assert forall|i: int| 0 <= i < d.len() implies !same_dir(#[trigger] d[i], p) by {
                assert(d[i] == s[i]);
            }
            assert(!same_dir(s[s.len() - 1], p));
            assert(w =~= s);
        }
    }
}

/// What a push promises: with room for at least one directory, the pushed
/// directory becomes current; no directory is repeated if none was before;
/// a session within its size limit stays within it, so a well-kept stack
/// stays well kept; pushing the current directory again changes nothing;
/// and every other directory was there before.
pub proof fn lemma_push_laws(s: Seq<Seq<char>>, p: Seq<char>, max: nat)
    ensures
        max >= 1 ==> pushed(s, p, max).len() > 0 && same_dir(pushed(s, p, max)[0], p),
        distinct(s) ==> distinct(pushed(s, p, max)),
        s.len() <= max ==> pushed(s, p, max).len() <= max,
        well_kept(s, max) ==> well_kept(pushed(s, p, max), max),
        max >= 1 ==> pushed(pushed(s, p, max), p, max) == pushed(s, p, max),
        forall|i: int|
            0 <= i < pushed(s, p, max).len() && !same_dir(#[trigger] pushed(s, p, max)[i], p) ==> s.contains(
                pushed(s, p, max)[i],
            ),
{
    lemma_without_props(s, p);
    let w = without(s, p);
    let l = seq![p] + w;
    if !(s.len() > 0 && same_dir(s[0], p)) {
        assert forall|i: int| 0 <= i < l.len() && !same_dir(#[trigger] l[i], p) implies s.contains(l[i]) by {
            assert(l[i] == w[i - 1]);
        }
        if distinct(s) {
            assert forall|i: int, j: int| 0 <= i < j < l.len() implies !same_dir(#[trigger] l[i], #[trigger] l[j]) by {
                if i == 0 {
                    assert(l[j] == w[j - 1]);
                } else {
                    assert(l[i] == w[i - 1] && l[j] == w[j - 1]);
                }
            }
        }
        if l.len() > max {
            let r = l.subrange(0, max as int);
            assert forall|i: int| 0 <= i < r.len() implies r[i] == l[i] by {}
            if distinct(s) {
                assert forall|i: int, j: int| 0 <= i < j < r.len() implies !same_dir(#[trigger] r[i], #[trigger] r[j]) by {
                    assert(r[i] == l[i] && r[j] == l[j]);
                }
            }
            assert forall|i: int| 0 <= i < r.len() && !same_dir(#[trigger] r[i], p) implies s.contains(r[i]) by {
                assert(r[i] == l[i]);
            }
            if max >= 1 {
                assert(r[0] == p);
            }
        } else {
            if max >= 1 {
                assert(l[0] == p);
            }
        }
    }
}

/// Pushes `path` onto a list of session entries, as `pushed` says.
fn push_path(entries: &mut Vec<SessionEntry>, path: &str, max_size: usize)
    ensures
        session_paths(final(entries)@) == pushed(session_paths(old(entries)@), path@, max_size as nat),
        old(entries)@.len() > 0 && same_dir(session_paths(old(entries)@)[0], path@) ==> final(entries)@ == old(
            entries,
        )@,
{
    let ghost s0 = session_paths(entries@);
    if entries.len() > 0 && same_path(entries[0].path.as_str(), path) {
        return;
    }
    let mut kept: Vec<SessionEntry> = Vec::new();
    let mut i: usize = 0;
    while i < entries.len()
        invariant
            i <= entries@.len(),
            s0 == session_paths(entries@),
            session_paths(kept@) == without(s0.subrange(0, i as int), path@),
        decreases entries@.len() - i,
    {
        proof {
            assert(s0.subrange(0, i + 1).drop_last() =~= s0.subrange(0, i as int));
        }
        if !same_path(entries[i].path.as_str(), path) {
            kept.push(SessionEntry { path: owned(entries[i].path.as_str()) });
        }
        proof {
            assert(session_paths(kept@) =~= without(s0.subrange(0, i + 1), path@));
        }
        i = i + 1;
    }
    proof {
        assert(s0.subrange(0, i as int) =~= s0);
    }
    kept.insert(0, SessionEntry { path: owned(path) });
    if kept.len() > max_size {
        kept.truncate(max_size);
    }
    proof {
        assert(session_paths(kept@) =~= pushed(s0, path@, max_size as nat));
    }
    *entries = kept;
}

/// The human-readable lines of a list of session entries.
fn format_entries(entries: &Vec<SessionEntry>) -> (lines: Vec<String>)
    requires
        entries@.len() < u64::MAX,
    ensures
        lines@.len() == entries@.len(),
        forall|i: int| 0 <= i < lines@.len() ==> (#[trigger] lines@[i])@ == session_line(i as nat, entries@[i].path@),
{
    let mut lines: Vec<String> = Vec::new();
    let mut i: usize = 0;
    while i < entries.len()
        invariant
            i <= entries@.len(),
            entries@.len() < u64::MAX,
            lines@.len() == i,
            forall|j: int| 0 <= j < i ==> (#[trigger] lines@[j])@ == session_line(j as nat, entries@[j].path@),
        decreases entries@.len() - i,
    {
        let mut line = String::new();
        push_decimal(&mut line, (i as u64) + 1);
        proof { reveal_strlit(" "); }
        line.append(" ");
        line.append(entries[i].path.as_str());
        if i == 0 {
            proof { reveal_strlit(" <-- current"); }
            line.append(" <-- current");
        }
        proof {
            assert(line@ =~= session_line(i as nat, entries@[i as int].path@));
        }
        lines.push(line);
        i = i + 1;
    }
    lines
}

fn contains_path(entries: &Vec<SessionEntry>, path: &str) -> (r: bool)
    ensures
        r == holds_dir(session_paths(entries@), path@),
{
    let ghost sp = session_paths(entries@);
    let mut i: usize = 0;
    while i < entries.len()
        invariant
            i <= entries@.len(),
            sp == session_paths(entries@),
            forall|j: int| 0 <= j < i ==> !same_dir((#[trigger] entries@[j]).path@, path@),
        decreases entries@.len() - i,
    {
        if same_path(entries[i].path.as_str(), path) {
            proof {
                assert(same_dir(sp[i as int], path@));
            }
            return true;
        }
        i = i + 1;
    }
    proof {
        assert forall|j: int| 0 <= j < sp.len() implies !same_dir(#[trigger] sp[j], path@) by {
            assert(sp[j] == entries@[j].path@);
        }
    }
    false
}

impl Session {
    /// The session's invariant: its chain records no pair twice.
    pub closed spec fn wf(&self) -> bool {
        self.chain.wf()
    }

    /// The session's directories, most recent first.
    pub closed spec fn paths(&self) -> Seq<Seq<char>> {
        session_paths(self.entries@)
    }

    /// The most directories the session keeps.
    pub closed spec fn limit(&self) -> nat {
        self.max_size as nat
    }

    /// When the session was last saved.
    pub closed spec fn stamp(&self) -> u64 {
        self.saved_at
    }

    /// The chain of the moves made within the session.
    pub closed spec fn moves(&self) -> Markov {
        self.chain
    }

    /// A session as it was saved: its directories (most recent first), its
    /// size limit, when it was saved, and its chain of moves.
    pub fn restore(max_size: usize, entries: Vec<SessionEntry>, saved_at: u64, chain: Markov) -> (s: Self)
        requires
            chain.wf(),
        ensures
            s.wf(),
            s.paths() == session_paths(entries@),
            s.limit() == max_size,
            s.stamp() == saved_at,
            s.moves() == chain,
    {
        Session { max_size, entries, saved_at, chain }
    }

    /// The most directories the session keeps.
    pub fn max_size(&self) -> (r: usize)
        ensures
            r == self.limit(),
    {
        self.max_size
    }

    /// When the session was last saved.
    pub fn saved_at(&self) -> (r: u64)
        ensures
            r == self.stamp(),
    {
        self.saved_at
    }

    /// The chain of the moves made within the session.
    pub fn chain(&self) -> (r: &Markov)
        ensures
            *r == self.moves(),
            r.wf() == self.wf(),
    {
        &self.chain
    }

    /// The directories after the current one, at most `MARKOV_N - 1` of
    /// them, most recent first: the context a move out of the current
    /// directory is keyed on.
    pub fn context(&self) -> (context: Vec<String>)
        requires
            self.paths().len() > 0,
        ensures
            strings_view(context@) == session_context(self.paths()),
    {
        let ghost ps = self.paths();
        let n = self.entries.len();
        let end = if n < MARKOV_N { n } else { MARKOV_N };
        let mut context: Vec<String> = Vec::new();
        let mut i: usize = 1;
        while i < end
            invariant
                ps == self.paths(),
                ps == session_paths(self.entries@),
                1 <= i <= end,
                end <= n == self.entries@.len(),
                end == if n < MARKOV_N { n } else { MARKOV_N },
                context@.len() == i - 1,
                forall|j: int| 0 <= j < context@.len() ==> (#[trigger] context@[j])@ == ps[j + 1],
            decreases end - i,
        {
            context.push(owned(self.entries[i].path.as_str()));
            i = i + 1;
        }
        proof {
            assert(strings_view(context@) =~= session_context(ps));
        }
        context
    }

    /// A session with no directories, the default size limit, stamped `now`.
    pub fn new_at(now: u64) -> (s: Self)
        ensures
            s.limit() == MAX_SIZE,
            s.paths().len() == 0,
            s.stamp() == now,
            s.moves().entries().len() == 0,
            s.wf(),
    {
        Session { max_size: MAX_SIZE, entries: Vec::new(), saved_at: now, chain: Markov::new() }
    }

    /// Pushes a directory onto the session: the move from the current
    /// directory to `path` is counted in the session's chain (unless `path`
    /// is current already); then, unless `path` is current, it goes on top,
    /// any earlier occurrence is removed, and the session is cut to
    /// `max_size` entries.
    pub fn push(&mut self, path: &str)
        requires
            old(self).wf(),
            old(self).paths().len() > 0 ==> old(self).moves().can_count(Seq::empty(), old(self).paths()[0], path@),
        ensures
            old(self).paths().len() > 0 && same_dir(old(self).paths()[0], path@) ==> final(self).paths() == old(
                self,
            ).paths(),
            old(self).paths().len() > 0 && old(self).paths()[0] == path@ ==> final(self).moves().entries() == old(
                self,
            ).moves().entries(),
            well_kept(old(self).paths(), old(self).limit()) ==> well_kept(final(self).paths(), final(self).limit()),
            old(self).limit() >= 1 ==> final(self).paths().len() > 0 && same_dir(final(self).paths()[0], path@),
            final(self).wf(),
            final(self).paths() == pushed(old(self).paths(), path@, old(self).limit()),
            final(self).limit() == old(self).limit(),
            final(self).stamp() == old(self).stamp(),
            forall|k: Seq<Seq<char>>, t: Seq<char>|
                #[trigger] final(self).moves().count(k, t) == old(self).moves().count(k, t) + if old(self).paths().len()
                    > 0 && old(self).paths()[0] != path@ && k == seq![old(self).paths()[0]] && t == path@ {
                    1nat
                } else {
                    0nat
                },
    {
        let ghost s0 = *self;
        self.register_markov_chain(path);
        let ghost s1 = *self;
        push_path(&mut self.entries, path, self.max_size);
        proof {
            lemma_push_laws(s0.paths(), path@, s0.limit());
            assert(self.chain == s1.chain);
            assert forall|k: Seq<Seq<char>>, t: Seq<char>|
                #[trigger] self.moves().count(k, t) == s0.moves().count(k, t) + if s0.paths().len() > 0
                    && s0.paths()[0] != path@ && k == seq![s0.paths()[0]] && t == path@ {
                    1nat
                } else {
                    0nat
                } by {
                assert(s1.moves().count(k, t) == s0.moves().count(k, t) + if s0.paths().len() > 0
                    && s0.paths()[0] != path@ && k == seq![s0.paths()[0]] && t == path@ {
                    1nat
                } else {
                    0nat
                });
            }
        }
    }

    /// Counts the move from the current directory to `path`.
    fn register_markov_chain(&mut self, path: &str)
        requires
            old(self).wf(),
            old(self).paths().len() > 0 ==> old(self).moves().can_count(Seq::empty(), old(self).paths()[0], path@),
        ensures
            old(self).paths().len() == 0 || old(self).paths()[0] == path@ ==> final(self).moves().entries()
                == old(self).moves().entries(),
            final(self).wf(),
            final(self).paths() == old(self).paths(),
            final(self).limit() == old(self).limit(),
            final(self).stamp() == old(self).stamp(),
            forall|k: Seq<Seq<char>>, t: Seq<char>|
                #[trigger] final(self).moves().count(k, t) == old(self).moves().count(k, t) + if old(self).paths().len()
                    > 0 && old(self).paths()[0] != path@ && k == seq![old(self).paths()[0]] && t == path@ {
                    1nat
                } else {
                    0nat
                },
    {
        if self.entries.len() > 0 {
            let from = owned(self.entries[0].path.as_str());
            let empty: Vec<String> = Vec::new();
            proof {
                let c = strings_view(empty@);
                assert(c =~= Seq::<Seq<char>>::empty());
                assert(context_key(c, from@, 1) =~= seq![from@]);
                assert(self.paths()[0] == from@);
                assert forall|k: Seq<Seq<char>>| registered_key(c, from@, k) <==> k == seq![from@] by {
                    if registered_key(c, from@, k) {
                        assert(k.len() == 1);
                    }
                }
            }
            self.chain.register(empty.as_slice(), from.as_str(), path);
        }
    }

    /// The current directory: the most recent one.
    pub fn current(&self) -> (r: Option<&String>)
        ensures
            match r {
                Some(p) => self.paths().len() > 0 && p@ == self.paths()[0],
                None => self.paths().len() == 0,
            },
    {
        if self.entries.len() > 0 {
            Some(&self.entries[0].path)
        } else {
            None
        }
    }

    /// The directory before the current one.
    pub fn previous(&self) -> (r: Option<&String>)
        ensures
            match r {
                Some(p) => self.paths().len() > 1 && p@ == self.paths()[1],
                None => self.paths().len() <= 1,
            },
    {
        if self.entries.len() > 1 {
            Some(&self.entries[1].path)
        } else {
            None
        }
    }

    /// All directories of the session, most recent first.
    pub fn list(&self) -> (r: &[SessionEntry])
        ensures
            session_paths(r@) == self.paths(),
    {
        self.entries.as_slice()
    }

    /// Whether `path` is in the session.
    pub fn contains(&self, path: &str) -> (r: bool)
        ensures
            r == holds_dir(self.paths(), path@),
    {
        contains_path(&self.entries, path)
    }

    /// The session as numbered lines, the current directory marked.
    pub fn formatted(&self) -> (lines: Vec<String>)
        requires
            self.paths().len() < u64::MAX,
        ensures
            lines@.len() == self.paths().len(),
            forall|i: int| 0 <= i < lines@.len() ==> (#[trigger] lines@[i])@ == session_line(i as nat, self.paths()[i]),
    {
        format_entries(&self.entries)
    }

    /// Whether a session saved at `saved_at` is still valid at `now`: less
    /// than `SESSION_EXPIRY_SECS` seconds old (a clock set back counts as no
    /// time at all).
    pub fn fresh_at(&self, now: u64) -> (r: bool)
        ensures
            r == ((if now >= self.stamp() { now - self.stamp() } else { 0 }) < SESSION_EXPIRY_SECS),
    {
        now.saturating_sub(self.saved_at) < SESSION_EXPIRY_SECS
    }

    /// Stamps the session with the time it is saved.
    pub fn before_save_at(&mut self, now: u64)
        ensures
            final(self).stamp() == now,
            final(self).paths() == old(self).paths(),
            final(self).limit() == old(self).limit(),
            final(self).moves() == old(self).moves(),
    {
        self.saved_at = now;
    }
}

impl Default for Session {
    /// An empty session with the default size limit, stamped now.
    fn default() -> (s: Self)
        ensures
            s.limit() == MAX_SIZE,
            s.paths().len() == 0,
            s.moves().entries().len() == 0,
            s.wf(),
    {
        Session::new_at(time_now())
    }
}

/// A bounded stack of recent directories, most recent first, without repeats.
pub struct SessionStack {
    max_size: usize,
    entries: Vec<SessionEntry>,
    saved_at: u64,
}

impl SessionStack {
    /// The stack's directories, most recent first.
    pub closed spec fn paths(&self) -> Seq<Seq<char>> {
        session_paths(self.entries@)
    }

    /// The most directories the stack keeps.
    pub closed spec fn limit(&self) -> nat {
        self.max_size as nat
    }

    /// When the stack was last saved.
    pub closed spec fn stamp(&self) -> u64 {
        self.saved_at
    }

    /// A well-kept stack: no directory twice, at most `limit()` of them.
    pub closed spec fn wf(&self) -> bool {
        well_kept(self.paths(), self.limit())
    }

    /// An empty stack that keeps at most `max_size` directories, stamped now.
    pub fn new(max_size: usize) -> (s: Self)
        ensures
            s.limit() == max_size,
            s.paths().len() == 0,
            s.wf(),
    {
        SessionStack { max_size, entries: Vec::new(), saved_at: time_now() }
    }

    /// A stack as it was saved: its directories (most recent first), its size
    /// limit and when it was saved.
    pub fn restore(max_size: usize, entries: Vec<SessionEntry>, saved_at: u64) -> (s: Self)
        ensures
            s.paths() == session_paths(entries@),
            s.limit() == max_size,
            s.stamp() == saved_at,
    {
        SessionStack { max_size, entries, saved_at }
    }

    /// When the stack was last saved.
    pub fn saved_at(&self) -> (r: u64)
        ensures
            r == self.stamp(),
    {
        self.saved_at
    }

    /// Pushes a directory: unless it is on top already, it goes on top, any
    /// earlier occurrence is removed and the stack is cut to `max_size`.
    pub fn push(&mut self, path: &str)
        ensures
            final(self).paths() == pushed(old(self).paths(), path@, old(self).limit()),
            old(self).paths().len() > 0 && same_dir(old(self).paths()[0], path@) ==> final(self).paths() == old(
                self,
            ).paths(),
            old(self).wf() ==> final(self).wf(),
            old(self).limit() >= 1 ==> final(self).paths().len() > 0 && same_dir(final(self).paths()[0], path@),
            final(self).limit() == old(self).limit(),
            final(self).stamp() == old(self).stamp(),
    {
        push_path(&mut self.entries, path, self.max_size);
        proof {
            lemma_push_laws(old(self).paths(), path@, old(self).limit());
        }
    }

    /// The current directory: the one on top.
    pub fn current(&self) -> (r: Option<&String>)
        ensures
            match r {
                Some(p) => self.paths().len() > 0 && p@ == self.paths()[0],
                None => self.paths().len() == 0,
            },
    {
        if self.entries.len() > 0 {
            Some(&self.entries[0].path)
        } else {
            None
        }
    }

    /// All directories, most recent first.
    pub fn list(&self) -> (r: &[SessionEntry])
        ensures
            session_paths(r@) == self.paths(),
    {
        self.entries.as_slice()
    }

    /// Whether `path` is on the stack.
    pub fn contains(&self, path: &str) -> (r: bool)
        ensures
            r == holds_dir(self.paths(), path@),
    {
        contains_path(&self.entries, path)
    }

    /// The stack as numbered lines, the current directory marked.
    pub fn formatted(&self) -> (lines: Vec<String>)
        requires
            self.paths().len() < u64::MAX,
        ensures
            lines@.len() == self.paths().len(),
            forall|i: int| 0 <= i < lines@.len() ==> (#[trigger] lines@[i])@ == session_line(i as nat, self.paths()[i]),
    {
        format_entries(&self.entries)
    }

    /// Whether a stack saved at `saved_at` has expired at `now`: more than
    /// `STACK_EXPIRY_SECS` seconds old (a clock set back counts as no time).
    pub fn expired_at(&self, now: u64) -> (r: bool)
        ensures
            r == ((if now >= self.stamp() { now - self.stamp() } else { 0 }) > STACK_EXPIRY_SECS),
    {
        now.saturating_sub(self.saved_at) > STACK_EXPIRY_SECS
    }
}


/// The context a move is keyed on holds the session's directories after the
/// current one, up to `MARKOV_N - 1` of them, in the session's order.
pub proof fn lemma_session_context(paths: Seq<Seq<char>>)
    requires
        paths.len() >= 1,
    ensures
        session_context(paths).len() == if paths.len() - 1 < MARKOV_N - 1 {
            paths.len() - 1
        } else {
            MARKOV_N - 1
        },
        forall|j: int| 0 <= j < session_context(paths).len() ==> #[trigger] session_context(paths)[j] == paths[j + 1],
{
}

} // verus!
