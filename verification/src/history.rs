use vstd::prelude::*;

use crate::clock::time_now;
use crate::markov::{context_key, move_pairs, registered_key, strings_view, Markov};
use crate::paths::{same_dir, same_path};
use crate::markov::owned;

verus! {

/// What the long-term history remembers of one directory.
pub struct HistoryEntry {
    pub path: String,
    pub visits: usize,
    pub last_visited: u64,
}

/// Long-term memory: every directory visited with its visit count and the
/// time of its last visit, and the Markov chain of moves between directories.
/// Directories are compared by their components (see `same_dir`), so `/a/b`
/// and `/a/b/` are one directory; the Markov chain keys moves by their text.
pub struct History {
    pub entries: Vec<HistoryEntry>,
    pub chain: Markov,
}

/// What the history holds of one entry: directory, visits, last visit.
pub open spec fn entry_view(e: HistoryEntry) -> (Seq<char>, nat, u64) {
    (e.path@, e.visits as nat, e.last_visited)
}

/// The history's entries as (directory, visits, last visit) triples.
pub open spec fn entries_view(s: Seq<HistoryEntry>) -> Seq<(Seq<char>, nat, u64)> {
    s.map_values(|e: HistoryEntry| entry_view(e))
}

/// The index of the first entry of `s` for directory `p` (compared by
/// components, see `same_dir`), or -1.
pub open spec fn first_index(s: Seq<(Seq<char>, nat, u64)>, p: Seq<char>) -> int
    decreases s.len(),
{
    if s.len() == 0 {
        -1
    } else {
        let r = first_index(s.drop_last(), p);
        if r >= 0 {
            r
        } else if same_dir(s.last().0, p) {
            s.len() - 1
        } else {
            -1
        }
    }
}

/// The entries after one more visit of `p` at time `now`: the first entry for
/// `p` counts one visit more (and, when `touch`, is stamped `now`); with no
/// entry for `p` a new one with one visit, stamped `now`, is appended.
pub open spec fn bumped(s: Seq<(Seq<char>, nat, u64)>, p: Seq<char>, now: u64, touch: bool) -> Seq<
    (Seq<char>, nat, u64),
> {
    let i = first_index(s, p);
    if i >= 0 {
        s.update(i, (s[i].0, s[i].1 + 1, if touch { now } else { s[i].2 }))
    } else {
        s.push((p, 1, now))
    }
}

/// The visits counted for `p`: those of its first entry, 0 without one.
pub open spec fn visits_in(s: Seq<(Seq<char>, nat, u64)>, p: Seq<char>) -> nat {
    let i = first_index(s, p);
    if i >= 0 {
        s[i].1
    } else {
        0
    }
}

/// The last visit of `p`: that of its first entry, if there is one.
pub open spec fn last_in(s: Seq<(Seq<char>, nat, u64)>, p: Seq<char>) -> Option<u64> {
    let i = first_index(s, p);
    if i >= 0 {
        Some(s[i].2)
    } else {
        None
    }
}

/// How often `q` occurs in `paths` (compared by components).
pub open spec fn occurrences(paths: Seq<Seq<char>>, q: Seq<char>) -> nat
    decreases paths.len(),
{
    if paths.len() == 0 {
        0
    } else {
        occurrences(paths.drop_last(), q) + if same_dir(paths.last(), q) {
            1nat
        } else {
            0nat
        }
    }
}

proof fn lemma_first_same_paths(s1: Seq<(Seq<char>, nat, u64)>, s2: Seq<(Seq<char>, nat, u64)>, p: Seq<char>)
    requires
        s1.len() == s2.len(),
        forall|j: int| 0 <= j < s1.len() ==> (#[trigger] s1[j]).0 == s2[j].0,
    ensures
        first_index(s1, p) == first_index(s2, p),
    decreases s1.len(),
{
    if s1.len() > 0 {
        let d1 = s1.drop_last();
        let d2 = s2.drop_last();
        assert forall|j: int| 0 <= j < d1.len() implies (#[trigger] d1[j]).0 == d2[j].0 by {
            assert(d1[j] == s1[j] && d2[j] == s2[j]);
        }
        lemma_first_same_paths(d1, d2, p);
    }
}

/// The first entry for `p` is the first for every path with the same
/// components.
pub proof fn lemma_first_same_dir(s: Seq<(Seq<char>, nat, u64)>, p: Seq<char>, q: Seq<char>)
    requires
        same_dir(p, q),
    ensures
        first_index(s, p) == first_index(s, q),
    decreases s.len(),
{
    if s.len() > 0 {
        lemma_first_same_dir(s.drop_last(), p, q);
    }
}

/// One more visit of `p` adds one to the count of the directory `p` names
/// (and stamps it when `touch`, or when it is new); every other directory
/// keeps its count and time.
pub proof fn lemma_bumped_effect(s: Seq<(Seq<char>, nat, u64)>, p: Seq<char>, now: u64, touch: bool)
    ensures
        forall|q: Seq<char>|
            #[trigger] visits_in(bumped(s, p, now, touch), q) == visits_in(s, q) + if same_dir(q, p) {
                1nat
            } else {
                0nat
            },
        forall|q: Seq<char>|
            same_dir(q, p) ==> #[trigger] last_in(bumped(s, p, now, touch), q) == if touch || first_index(s, p) < 0 {
                Some(now)
            } else {
                last_in(s, q)
            },
        forall|q: Seq<char>| !same_dir(q, p) ==> #[trigger] last_in(bumped(s, p, now, touch), q) == last_in(s, q),
{
    let b = bumped(s, p, now, touch);
    let i = first_index(s, p);
    lemma_first_none(s, p);
    if i >= 0 {
        assert forall|j: int| 0 <= j < b.len() implies (#[trigger] b[j]).0 == s[j].0 by {}
        assert forall|q: Seq<char>| !same_dir(q, p) implies visits_in(bumped(s, p, now, touch), q) == visits_in(s, q)
            && last_in(bumped(s, p, now, touch), q) == last_in(s, q) by {
            lemma_first_same_paths(b, s, q);
            lemma_first_none(s, q);
            let iq = first_index(s, q);
            if iq >= 0 {
                assert(iq != i);
                assert(b[iq] == s[iq]);
            }
        }
        lemma_first_same_paths(b, s, p);
        assert(first_index(b, p) == i);
    } else {
        assert(b.drop_last() =~= s);
        assert forall|q: Seq<char>| !same_dir(q, p) implies visits_in(bumped(s, p, now, touch), q) == visits_in(s, q)
            && last_in(bumped(s, p, now, touch), q) == last_in(s, q) by {
            lemma_first_none(s, q);
            assert(first_index(b, q) == first_index(s, q));
            if first_index(s, q) >= 0 {
                assert(s[first_index(s, q)] == b[first_index(s, q)]);
            }
        }
        assert(first_index(b, p) == s.len());
    }
    assert forall|q: Seq<char>| same_dir(q, p) implies visits_in(bumped(s, p, now, touch), q) == visits_in(s, q) + 1
        && last_in(bumped(s, p, now, touch), q) == (if touch || first_index(s, p) < 0 {
        Some(now)
    } else {
        last_in(s, q)
    }) by {
        lemma_first_same_dir(b, q, p);
        lemma_first_same_dir(s, q, p);
    }
}

pub proof fn lemma_first_none(s: Seq<(Seq<char>, nat, u64)>, p: Seq<char>)
    ensures
        (first_index(s, p) == -1) == (forall|j: int| 0 <= j < s.len() ==> !same_dir((#[trigger] s[j]).0, p)),
        -1 <= first_index(s, p) < s.len(),
        first_index(s, p) >= 0 ==> same_dir(s[first_index(s, p)].0, p),
        forall|j: int| 0 <= j < first_index(s, p) ==> !same_dir((#[trigger] s[j]).0, p),
    decreases s.len(),
{
    if s.len() > 0 {
        lemma_first_none(s.drop_last(), p);
        let d = s.drop_last();
        assert forall|j: int| 0 <= j < d.len() implies d[j] == s[j] by {}
        if first_index(d, p) == -1 && !same_dir(s.last().0, p) {
            assert forall|j: int| 0 <= j < s.len() implies !same_dir((#[trigger] s[j]).0, p) by {
                if j < d.len() {
                    assert(d[j] == s[j]);
                }
            }
        }
    }
}

proof fn lemma_first_is(s: Seq<(Seq<char>, nat, u64)>, p: Seq<char>, i: int)
    requires
        0 <= i < s.len(),
        same_dir(s[i].0, p),
        forall|j: int| 0 <= j < i ==> !same_dir((#[trigger] s[j]).0, p),
    ensures
        first_index(s, p) == i,
    decreases s.len(),
{
    let d = s.drop_last();
    if i < s.len() - 1 {
        assert forall|j: int| 0 <= j < i implies !same_dir((#[trigger] d[j]).0, p) by {
            assert(d[j] == s[j]);
        }
        lemma_first_is(d, p, i);
    } else {
        assert forall|j: int| 0 <= j < d.len() implies !same_dir((#[trigger] d[j]).0, p) by {
            assert(d[j] == s[j]);
        }
        lemma_first_none(d, p);
    }
}

/// Whether `p` is an absolute path: one that starts at the root, `/`.
pub open spec fn is_absolute(p: Seq<char>) -> bool {
    p.len() > 0 && p[0] == '/'
}

/// Whether the path `p` is absolute: whether it starts with `/`.
pub fn path_is_absolute(p: &str) -> (r: bool)
    ensures
        r == is_absolute(p@),
{
    if p.unicode_len() == 0 {
        false
    } else {
        p.get_char(0) == '/'
    }
}

impl History {
    /// The history's well-formedness: its chain is well formed.
    pub open spec fn wf(&self) -> bool {
        self.chain.wf()
    }

    /// How many visits the history counts for `p`.
    pub open spec fn visits_of(&self, p: Seq<char>) -> nat {
        visits_in(entries_view(self.entries@), p)
    }

    /// The time of the last visit of `p`, if the history knows `p`.
    pub open spec fn last_visit_of(&self, p: Seq<char>) -> Option<u64> {
        last_in(entries_view(self.entries@), p)
    }

    /// Seconds from the last visit of `p` to `now` (0 when `now` is
    /// earlier), `None` when the history does not know `p`.
    pub open spec fn seconds_since(&self, p: Seq<char>, now: u64) -> Option<u64> {
        match self.last_visit_of(p) {
            Some(t) => Some(if now >= t { (now - t) as u64 } else { 0u64 }),
            None => None,
        }
    }

    /// An empty history.
    pub fn new() -> (h: Self)
        ensures
            h.entries@.len() == 0,
            h.chain.entries().len() == 0,
            h.wf(),
    {
        History { entries: Vec::new(), chain: Markov::new() }
    }

    /// The index of the first entry for `path`.
    fn find(&self, path: &str) -> (r: Option<usize>)
        ensures
            match r {
                Some(i) => i < self.entries@.len() && i as int == first_index(entries_view(self.entries@), path@),
                None => first_index(entries_view(self.entries@), path@) == -1,
            },
    {
        let mut i: usize = 0;
        while i < self.entries.len()
            invariant
                i <= self.entries@.len(),
                forall|j: int| 0 <= j < i ==> !same_dir((#[trigger] self.entries@[j]).path@, path@),
            decreases self.entries@.len() - i,
        {
            if same_path(self.entries[i].path.as_str(), path) {
                proof {
                    let v = entries_view(self.entries@);
                    assert forall|j: int| 0 <= j < i implies !same_dir((#[trigger] v[j]).0, path@) by {
                        assert(v[j].0 == self.entries@[j].path@);
                    }
                    lemma_first_is(v, path@, i as int);
                }
                return Some(i);
            }
            i = i + 1;
        }
        proof {
            let v = entries_view(self.entries@);
            lemma_first_none(v, path@);
            assert(forall|j: int| 0 <= j < v.len() ==> (#[trigger] v[j]).0 == self.entries@[j].path@);
        }
        None
    }

    fn bump(&mut self, path: &str, now: u64, touch: bool)
        requires
            old(self).visits_of(path@) < usize::MAX,
        ensures
            entries_view(final(self).entries@) == bumped(entries_view(old(self).entries@), path@, now, touch),
            final(self).chain == old(self).chain,
    {
        let ghost s0 = self.entries@;
        match self.find(path) {
            Some(i) => {
                let e = &self.entries[i];
                let updated = HistoryEntry {
                    path: owned(e.path.as_str()),
                    visits: e.visits + 1,
                    last_visited: if touch { now } else { e.last_visited },
                };
                self.entries.set(i, updated);
                proof {
                    assert(entries_view(self.entries@) =~= bumped(entries_view(s0), path@, now, touch));
                }
            },
            None => {
                self.entries.push(HistoryEntry { path: owned(path), visits: 1, last_visited: now });
                proof {
                    assert(entries_view(self.entries@) =~= bumped(entries_view(s0), path@, now, touch));
                }
            },
        }
    }

    /// Counts one more visit of `path` without touching the time of the
    /// last visit of a known directory; an unknown one is added stamped `now`.
    pub fn record_bump(&mut self, path: &str, now: u64)
        requires
            old(self).visits_of(path@) < usize::MAX,
        ensures
            entries_view(final(self).entries@) == bumped(entries_view(old(self).entries@), path@, now, false),
            final(self).chain == old(self).chain,
    {
        self.bump(path, now, false)
    }

    /// Records a visit of `path` at time `now`: the directory's first entry
    /// counts one more visit and is stamped `now`; an unknown directory gets
    /// a new entry with one visit.
    pub fn record_visit_at(&mut self, path: &str, now: u64)
        requires
            old(self).visits_of(path@) < usize::MAX,
        ensures
            entries_view(final(self).entries@) == bumped(entries_view(old(self).entries@), path@, now, true),
            final(self).chain == old(self).chain,
    {
        self.bump(path, now, true)
    }

    /// Records a visit of `path` now, as `record_visit_at` does with the
    /// current time.
    pub fn record_visit(&mut self, path: &str)
        requires
            old(self).visits_of(path@) < usize::MAX,
        ensures
            exists|now: u64|
                entries_view(final(self).entries@) == bumped(entries_view(old(self).entries@), path@, now, true),
            final(self).chain == old(self).chain,
    {
        let now = time_now();
        self.record_visit_at(path, now);
    }

    /// How many visits the history counts for `path` (0 for an unknown one).
    pub fn visit_count(&self, path: &str) -> (r: usize)
        ensures
            r as nat == self.visits_of(path@),
    {
        match self.find(path) {
            Some(i) => self.entries[i].visits,
            None => 0,
        }
    }

    /// Seconds from the last visit of `path` to `now` (0 when `now` is
    /// earlier), or `None` for an unknown directory.
    pub fn seconds_since_last_visit_at(&self, path: &str, now: u64) -> (r: Option<u64>)
        ensures
            r == self.seconds_since(path@, now),
    {
        match self.find(path) {
            Some(i) => Some(now.saturating_sub(self.entries[i].last_visited)),
            None => None,
        }
    }

    /// `seconds_since_last_visit_at` with the current time.
    pub fn seconds_since_last_visit(&self, path: &str) -> (r: Option<u64>)
        ensures
            exists|now: u64| r == #[trigger] self.seconds_since(path@, now),
    {
        let now = time_now();
        let r = self.seconds_since_last_visit_at(path, now);
        assert(r == self.seconds_since(path@, now));
        r
    }

    /// Records the move `from` -> `to` in the chain as a bigram. Moves that
    /// involve a relative path, and moves to the same directory, are ignored.
    pub fn register_markov_chain(&mut self, from: &str, to: &str)
        requires
            old(self).wf(),
            is_absolute(from@) && is_absolute(to@) ==> old(self).chain.can_count(Seq::empty(), from@, to@),
        ensures
            final(self).wf(),
            final(self).entries == old(self).entries,
            forall|k: Seq<Seq<char>>, t: Seq<char>|
                #[trigger] final(self).chain.count(k, t) == old(self).chain.count(k, t) + if is_absolute(from@)
                    && is_absolute(to@) && from@ != to@ && k == seq![from@] && t == to@ {
                    1nat
                } else {
                    0nat
                },
            forall|k: Seq<Seq<char>>|
                #[trigger] final(self).chain.total(k) == old(self).chain.total(k) + if is_absolute(from@)
                    && is_absolute(to@) && from@ != to@ && k == seq![from@] {
                    1nat
                } else {
                    0nat
                },
            final(self).chain.pairs() == if is_absolute(from@) && is_absolute(to@) && from@ != to@ {
                old(self).chain.pairs().insert((seq![from@], to@))
            } else {
                old(self).chain.pairs()
            },
            forall|i: int|
                0 <= i < final(self).chain.entries().len() ==> (#[trigger] final(self).chain.entries()[i]).count
                    <= if i < old(self).chain.entries().len() {
                    old(self).chain.entries()[i].count + 1
                } else {
                    1
                },
    {
        if !path_is_absolute(from) || !path_is_absolute(to) {
            return;
        }
        let ghost c0 = self.chain;
        let empty: Vec<String> = Vec::new();
        proof {
            let c = strings_view(empty@);
            assert(c =~= Seq::<Seq<char>>::empty());
            assert(context_key(c, from@, 1) =~= seq![from@]);
            assert forall|k: Seq<Seq<char>>| registered_key(c, from@, k) <==> k == seq![from@] by {
                if registered_key(c, from@, k) {
                    assert(k.len() == 1);
                }
            }
        }
        self.chain.register(empty.as_slice(), from, to);
        proof {
            let c = strings_view(empty@);
            if from@ != to@ {
                assert(move_pairs(c, from@, to@) =~= set![(seq![from@], to@)]);
                assert(c0.pairs() + set![(seq![from@], to@)] =~= c0.pairs().insert((seq![from@], to@)));
            } else {
                assert(move_pairs(c, from@, to@) =~= Set::empty());
                assert(c0.pairs() + Set::empty() =~= c0.pairs());
            }
        }
    }

    /// The number of distinct (key, destination) pairs in the chain.
    pub fn transition_count(&self) -> (r: usize)
        requires
            self.wf(),
        ensures
            r == self.chain.entries().len(),
            r == self.chain.pairs().len(),
    {
        self.chain.transition_count()
    }
}

/// What a recorded visit does: after `record_visit_at(p, now)`, the directory
/// `p` names (however it is written) counts one visit more and was last
/// visited at `now`; every other directory keeps its visits and its last
/// visit.
pub proof fn lemma_record_visit(h0: History, h1: History, p: Seq<char>, now: u64)
    requires
        entries_view(h1.entries@) == bumped(entries_view(h0.entries@), p, now, true),
    ensures
        forall|q: Seq<char>|
            same_dir(q, p) ==> #[trigger] h1.visits_of(q) == h0.visits_of(q) + 1 && h1.last_visit_of(q) == Some(now),
        forall|q: Seq<char>|
            !same_dir(q, p) ==> #[trigger] h1.visits_of(q) == h0.visits_of(q) && h1.last_visit_of(q) == h0.last_visit_of(q),
{
    lemma_bumped_effect(entries_view(h0.entries@), p, now, true);
    assert forall|q: Seq<char>| same_dir(q, p) implies #[trigger] h1.visits_of(q) == h0.visits_of(q) + 1
        && h1.last_visit_of(q) == Some(now) by {
        assert(visits_in(entries_view(h1.entries@), q) == visits_in(entries_view(h0.entries@), q) + 1);
        assert(last_in(entries_view(h1.entries@), q) == Some(now));
    }
    assert forall|q: Seq<char>| !same_dir(q, p) implies #[trigger] h1.visits_of(q) == h0.visits_of(q)
        && h1.last_visit_of(q) == h0.last_visit_of(q) by {
        assert(visits_in(entries_view(h1.entries@), q) == visits_in(entries_view(h0.entries@), q));
        assert(last_in(entries_view(h1.entries@), q) == last_in(entries_view(h0.entries@), q));
    }
}

impl Default for History {
    fn default() -> (h: Self)
        ensures
            h.entries@.len() == 0,
            h.chain.entries().len() == 0,
    {
        History::new()
    }
}

} // verus!
