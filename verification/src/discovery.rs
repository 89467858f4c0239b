use vstd::prelude::*;
use vstd::hash_set::StringHashSet;

use crate::markov::{owned, strings_view};
use crate::paths::{dir_text, dir_text_of};

verus! {

/// The decisions of the breadth-first search for directories the user has
/// not visited: which directory to list next, which of the subdirectories
/// found are new, and when to stop. The search goes level by level from the
/// roots down to `max_depth` levels; no directory is offered twice; after a
/// level it stops once at least `max_results` strong matches were found.
/// A directory counts as met when its text written from its components (see
/// `dir_text`) was met.
pub struct Walk {
    queue: Vec<String>,
    head: usize,
    next: Vec<String>,
    visited: StringHashSet,
    depth: usize,
    max_depth: usize,
    max_results: usize,
    strong: usize,
    finished: bool,
}

/// The directories of `s` each written from its components (see `dir_text`).
pub open spec fn texts(s: Seq<Seq<char>>) -> Seq<Seq<char>> {
    s.map_values(|p: Seq<char>| dir_text(p))
}

/// `s` with repeats dropped: each directory at its first occurrence, in
/// order; two entries are the same directory when they are written the same
/// from their components.
pub open spec fn first_occurrences(s: Seq<Seq<char>>) -> Seq<Seq<char>>
    decreases s.len(),
{
    if s.len() == 0 {
        s
    } else {
        let d = first_occurrences(s.drop_last());
        if texts(d).contains(dir_text(s.last())) {
            d
        } else {
            d.push(s.last())
        }
    }
}

/// Dropping repeats keeps every directory.
proof fn lemma_first_occurrences_contains(s: Seq<Seq<char>>, r: Seq<char>)
    ensures
        texts(first_occurrences(s)).contains(r) <==> texts(s).contains(r),
    decreases s.len(),
{
    if s.len() > 0 {
        let d = s.drop_last();
        lemma_first_occurrences_contains(d, r);
        let fd = first_occurrences(d);
        let f = first_occurrences(s);
        assert(texts(d) =~= texts(s).drop_last());
        if texts(s).contains(r) {
            let k = choose|k: int| 0 <= k < texts(s).len() && texts(s)[k] == r;
            if k < s.len() - 1 {
                assert(texts(d)[k] == r);
                let j = choose|j: int| 0 <= j < texts(fd).len() && texts(fd)[j] == r;
                if !texts(fd).contains(dir_text(s.last())) {
                    assert(texts(f) =~= texts(fd).push(dir_text(s.last())));
                    assert(texts(f)[j] == r);
                }
            } else {
                assert(dir_text(s.last()) == r);
                if texts(fd).contains(dir_text(s.last())) {
                } else {
                    assert(texts(f) =~= texts(fd).push(dir_text(s.last())));
                    assert(texts(f)[fd.len() as int] == r);
                }
            }
        }
        if texts(f).contains(r) {
            let j = choose|j: int| 0 <= j < texts(f).len() && texts(f)[j] == r;
            if texts(fd).contains(dir_text(s.last())) {
                assert(texts(d).contains(r));
                let k = choose|k: int| 0 <= k < texts(d).len() && texts(d)[k] == r;
                assert(texts(s)[k] == r);
            } else {
                assert(texts(f) =~= texts(fd).push(dir_text(s.last())));
                if j < fd.len() {
                    assert(texts(fd)[j] == r);
                    assert(texts(d).contains(r));
                    let k = choose|k: int| 0 <= k < texts(d).len() && texts(d)[k] == r;
                    assert(texts(s)[k] == r);
                } else {
                    assert(texts(s)[s.len() - 1] == r);
                }
            }
        }
    }
}

impl Walk {
    /// The directories still to list at this level, in order.
    pub closed spec fn pending(&self) -> Seq<Seq<char>> {
        strings_view(self.queue@).subrange(self.head as int, self.queue@.len() as int)
    }

    /// The directories to list at the next level, in order.
    pub closed spec fn upcoming(&self) -> Seq<Seq<char>> {
        strings_view(self.next@)
    }

    /// Every directory met so far (roots included), each written from its
    /// components (see `dir_text`).
    pub closed spec fn seen(&self) -> Set<Seq<char>> {
        self.visited@
    }

    /// The level being listed (1 for the roots' subdirectories).
    pub closed spec fn level(&self) -> nat {
        self.depth as nat
    }

    /// The deepest level searched.
    pub closed spec fn deepest(&self) -> nat {
        self.max_depth as nat
    }

    /// The number of strong matches that stops the search after a level.
    pub closed spec fn enough(&self) -> nat {
        self.max_results as nat
    }

    /// The strong matches found so far.
    pub closed spec fn strong_found(&self) -> nat {
        self.strong as nat
    }

    /// Whether the search is over.
    pub closed spec fn is_done(&self) -> bool {
        self.finished
    }

    /// The walk's invariant: every directory waiting to be listed has been
    /// met, and an unfinished walk is at a level from 1 to `deepest`.
    pub closed spec fn wf(&self) -> bool {
        &&& self.head <= self.queue@.len()
        &&& forall|i: int| 0 <= i < self.pending().len() ==> self.seen().contains(dir_text(#[trigger] self.pending()[i]))
        &&& forall|i: int| 0 <= i < self.upcoming().len() ==> self.seen().contains(dir_text(#[trigger] self.upcoming()[i]))
        &&& !self.finished ==> 1 <= self.depth <= self.max_depth
    }

    /// A walk from `roots` (repeats dropped, first occurrence kept), down to
    /// `max_depth` levels, stopping after a level with `max_results` strong
    /// matches. With no level to search it is over at once.
    pub fn new(roots: &Vec<String>, max_depth: usize, max_results: usize) -> (w: Self)
        ensures
            w.wf(),
            forall|r: Seq<char>| #[trigger] w.seen().contains(r) <==> texts(strings_view(roots@)).contains(r),
            w.pending() == first_occurrences(strings_view(roots@)),
            w.upcoming().len() == 0,
            w.level() == 1,
            w.deepest() == max_depth,
            w.enough() == max_results,
            w.strong_found() == 0,
            w.is_done() == (max_depth == 0),
    {
        let mut visited = StringHashSet::new();
        let mut queue: Vec<String> = Vec::new();
        let ghost rv = strings_view(roots@);
        let mut i: usize = 0;
        while i < roots.len()
            invariant
                i <= roots@.len(),
                rv == strings_view(roots@),
                forall|r: Seq<char>| #[trigger] visited@.contains(r) <==> texts(rv.subrange(0, i as int)).contains(r),
                strings_view(queue@) == first_occurrences(rv.subrange(0, i as int)),
            decreases roots@.len() - i,
        {
            let ghost sub = rv.subrange(0, i as int);
            let ghost sub1 = rv.subrange(0, i + 1);
            let ghost q0 = strings_view(queue@);
            proof {
                assert(sub1.drop_last() =~= sub);
                assert(sub1.last() == rv[i as int]);
                assert(texts(sub1) =~= texts(sub).push(dir_text(rv[i as int])));
                lemma_first_occurrences_contains(sub, dir_text(rv[i as int]));
            }
            let text = dir_text_of(roots[i].as_str());
            if visited.insert(text) {
                queue.push(owned(roots[i].as_str()));
                proof {
                    assert(strings_view(queue@) =~= q0.push(rv[i as int]));
                }
            }
            proof {
                assert forall|r: Seq<char>| #[trigger] visited@.contains(r) <==> texts(sub1).contains(r) by {
                    if texts(sub1).contains(r) {
                        let k = choose|k: int| 0 <= k < texts(sub1).len() && texts(sub1)[k] == r;
                        if k < i {
                            assert(texts(sub)[k] == r);
                        }
                    }
                    if texts(sub).contains(r) {
                        let k = choose|k: int| 0 <= k < texts(sub).len() && texts(sub)[k] == r;
                        assert(texts(sub1)[k] == r);
                    }
                    if r == dir_text(rv[i as int]) {
                        assert(texts(sub1)[i as int] == r);
                    }
                }
            }
            i = i + 1;
        }
        proof {
            assert(rv.subrange(0, roots@.len() as int) =~= rv);
            let q = strings_view(queue@);
            assert(q.subrange(0, queue@.len() as int) =~= q);
            assert forall|j: int| 0 <= j < q.len() implies visited@.contains(dir_text(#[trigger] q[j])) by {
                assert(texts(q)[j] == dir_text(q[j]));
                lemma_first_occurrences_contains(rv, dir_text(q[j]));
            }
        }
        Walk {
            queue,
            head: 0,
            next: Vec::new(),
            visited,
            depth: 1,
            max_depth,
            max_results,
            strong: 0,
            finished: max_depth == 0,
        }
    }

    /// Whether the search is over.
    pub fn is_finished(&self) -> (r: bool)
        ensures
            r == self.is_done(),
    {
        self.finished
    }

    /// The next directory to list at this level. When the level has none
    /// left, the level ends instead and `None` comes back: the next level's
    /// directories become the ones to list, and the walk is over if enough
    /// strong matches were found or the deepest level was listed; otherwise
    /// it goes one level down.
    pub fn pop_dir(&mut self) -> (r: Option<String>)
        requires
            old(self).wf(),
            !old(self).is_done(),
        ensures
            final(self).wf(),
            final(self).seen() == old(self).seen(),
            final(self).deepest() == old(self).deepest(),
            final(self).enough() == old(self).enough(),
            final(self).strong_found() == old(self).strong_found(),
            match r {
                Some(d) => {
                    &&& old(self).pending().len() > 0
                    &&& d@ == old(self).pending()[0]
                    &&& final(self).pending() == old(self).pending().drop_first()
                    &&& final(self).upcoming() == old(self).upcoming()
                    &&& final(self).level() == old(self).level()
                    &&& !final(self).is_done()
                },
                None => {
                    &&& old(self).pending().len() == 0
                    &&& final(self).pending() == old(self).upcoming()
                    &&& final(self).upcoming().len() == 0
                    &&& final(self).is_done() == (old(self).strong_found() >= old(self).enough() || old(self).level()
                        >= old(self).deepest())
                    &&& final(self).level() == if final(self).is_done() {
                        old(self).level()
                    } else {
                        old(self).level() + 1
                    }
                },
            },
    {
        if self.head < self.queue.len() {
            let d = owned(self.queue[self.head].as_str());
            proof {
                assert(strings_view(self.queue@)[self.head as int] == self.queue@[self.head as int]@);
            }
            let ghost p0 = self.pending();
            self.head = self.head + 1;
            proof {
                assert(self.pending() =~= p0.drop_first());
            }
            Some(d)
        } else {
            let ghost up = self.upcoming();
            let mut fresh: Vec<String> = Vec::new();
            std::mem::swap(&mut fresh, &mut self.next);
            self.queue = fresh;
            self.head = 0;
            proof {
                assert(self.pending() =~= up);
                assert(self.upcoming() =~= Seq::<Seq<char>>::empty());
            }
            if self.strong >= self.max_results || self.depth >= self.max_depth {
                self.finished = true;
            } else {
                self.depth = self.depth + 1;
            }
            None
        }
    }

    /// Offers a subdirectory found while listing: `true` when it was not met
    /// before (it is then marked as met and, above the deepest level, queued
    /// for the next level), `false` for one already met.
    pub fn visit(&mut self, path: &str) -> (r: bool)
        requires
            old(self).wf(),
            !old(self).is_done(),
        ensures
            final(self).wf(),
            r == !old(self).seen().contains(dir_text(path@)),
            final(self).seen() == old(self).seen().insert(dir_text(path@)),
            final(self).pending() == old(self).pending(),
            final(self).upcoming() == if r && old(self).level() < old(self).deepest() {
                old(self).upcoming().push(path@)
            } else {
                old(self).upcoming()
            },
            final(self).level() == old(self).level(),
            final(self).deepest() == old(self).deepest(),
            final(self).enough() == old(self).enough(),
            final(self).strong_found() == old(self).strong_found(),
            final(self).is_done() == old(self).is_done(),
    {
        let ghost up = self.upcoming();
        let ghost p0 = self.pending();
        let fresh = self.visited.insert(dir_text_of(path));
        if fresh && self.depth < self.max_depth {
            self.next.push(owned(path));
            proof {
                assert(self.upcoming() =~= up.push(path@));
            }
        }
        proof {
            assert(self.pending() =~= p0);
        }
        fresh
    }

    /// Counts a match found for a new directory; `strong` says whether it is
    /// a strong one (an exact, prefix or substring match).
    pub fn found(&mut self, strong: bool)
        requires
            old(self).wf(),
        ensures
            final(self).wf(),
            final(self).strong_found() == if strong && old(self).strong_found() < usize::MAX {
                old(self).strong_found() + 1
            } else {
                old(self).strong_found()
            },
            final(self).seen() == old(self).seen(),
            final(self).pending() == old(self).pending(),
            final(self).upcoming() == old(self).upcoming(),
            final(self).level() == old(self).level(),
            final(self).deepest() == old(self).deepest(),
            final(self).enough() == old(self).enough(),
            final(self).is_done() == old(self).is_done(),
    {
        if strong && self.strong < usize::MAX {
            self.strong = self.strong + 1;
        }
        proof {
            assert(self.pending() =~= old(self).pending());
            assert(self.upcoming() =~= old(self).upcoming());
        }
    }
}

} // verus!
