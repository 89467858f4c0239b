use vstd::prelude::*;

use crate::history::{bumped, entries_view, first_index, is_absolute, lemma_bumped_effect, occurrences, path_is_absolute, visits_in, History};
use crate::markov::{owned, registered_key};
use crate::text::{chars_of, trim_bounds, trimmed};

verus! {

/// The entries after the directories of `paths` are merged in, in order: a
/// known directory counts one visit more (its last-visit time is kept), an
/// unknown one is added with one visit, stamped `now`.
pub open spec fn merged(s: Seq<(Seq<char>, nat, u64)>, paths: Seq<Seq<char>>, now: u64) -> Seq<
    (Seq<char>, nat, u64),
>
    decreases paths.len(),
{
    if paths.len() == 0 {
        s
    } else {
        bumped(merged(s, paths.drop_last(), now), paths.last(), now, false)
    }
}

/// Seeding merges rather than overwrites: after the directories of `paths`
/// are merged in, each directory counts its earlier visits plus one for each
/// time it occurs in `paths`, so no known directory is lost or loses visits.
pub proof fn lemma_seed_merges(s: Seq<(Seq<char>, nat, u64)>, paths: Seq<Seq<char>>, now: u64, q: Seq<char>)
    ensures
        visits_in(merged(s, paths, now), q) == visits_in(s, q) + occurrences(paths, q),
    decreases paths.len(),
{
    if paths.len() > 0 {
        lemma_seed_merges(s, paths.drop_last(), now, q);
        lemma_bumped_effect(merged(s, paths.drop_last(), now), paths.last(), now, false);
    }
}

/// How many consecutive pairs of `paths` are a move `k[0]` -> `t` that the
/// history's chain records (both paths absolute and different, `k` the bigram
/// key of the origin).
pub open spec fn moves(paths: Seq<Seq<char>>, k: Seq<Seq<char>>, t: Seq<char>) -> nat
    decreases paths.len(),
{
    if paths.len() < 2 {
        0
    } else {
        let a = paths[paths.len() - 2];
        let b = paths.last();
        moves(paths.drop_last(), k, t) + if is_absolute(a) && is_absolute(b) && a != b && k == seq![a] && t == b {
            1nat
        } else {
            0nat
        }
    }
}

/// How many consecutive pairs of `paths` are recorded moves out of key `k`.
pub open spec fn moves_from(paths: Seq<Seq<char>>, k: Seq<Seq<char>>) -> nat
    decreases paths.len(),
{
    if paths.len() < 2 {
        0
    } else {
        let a = paths[paths.len() - 2];
        let b = paths.last();
        moves_from(paths.drop_last(), k) + if is_absolute(a) && is_absolute(b) && a != b && k == seq![a] {
            1nat
        } else {
            0nat
        }
    }
}

/// The (bigram key, destination) pairs of the recorded moves between
/// consecutive `paths`.
pub open spec fn seeded_pairs(paths: Seq<Seq<char>>) -> Set<(Seq<Seq<char>>, Seq<char>)>
    decreases paths.len(),
{
    if paths.len() < 2 {
        Set::empty()
    } else {
        let a = paths[paths.len() - 2];
        let b = paths.last();
        seeded_pairs(paths.drop_last()) + if is_absolute(a) && is_absolute(b) && a != b {
            set![(seq![a], b)]
        } else {
            Set::empty()
        }
    }
}

pub open spec fn paths_view(paths: Seq<String>) -> Seq<Seq<char>> {
    paths.map_values(|p: String| p@)
}

/// A prefix of `paths` holds `q` no more often than `paths` does.
proof fn lemma_occurrences_prefix(paths: Seq<Seq<char>>, j: int, q: Seq<char>)
    requires
        0 <= j <= paths.len(),
    ensures
        occurrences(paths.subrange(0, j), q) <= occurrences(paths, q),
    decreases paths.len(),
{
    if j < paths.len() {
        let d = paths.drop_last();
        lemma_occurrences_prefix(d, j, q);
        assert(d.subrange(0, j) =~= paths.subrange(0, j));
    } else {
        assert(paths.subrange(0, j) =~= paths);
    }
}

/// A prefix of `paths` holds no more of the moves `k[0]` -> `t` than
/// `paths` does.
proof fn lemma_moves_prefix(paths: Seq<Seq<char>>, j: int, k: Seq<Seq<char>>, t: Seq<char>)
    requires
        0 <= j <= paths.len(),
    ensures
        moves(paths.subrange(0, j), k, t) <= moves(paths, k, t),
    decreases paths.len(),
{
    if j < paths.len() {
        let d = paths.drop_last();
        lemma_moves_prefix(d, j, k, t);
        assert(d.subrange(0, j) =~= paths.subrange(0, j));
    } else {
        assert(paths.subrange(0, j) =~= paths);
    }
}

/// Merges directories read from a shell history into the history: each
/// occurrence counts as one visit of a known directory (its last-visit time
/// kept) or adds an unknown directory with one visit stamped `now`. Every
/// directory's visits, with its occurrences in `paths` added, must fit in a
/// `usize`.
pub fn merge_history(history: &mut History, paths: &[String], now: u64)
    requires
        forall|q: Seq<char>|
            old(history).visits_of(q) + #[trigger] occurrences(paths_view(paths@), q) <= usize::MAX,
    ensures
        entries_view(final(history).entries@) == merged(entries_view(old(history).entries@), paths_view(paths@), now),
        final(history).chain == old(history).chain,
{
    let ghost s0 = entries_view(history.entries@);
    let ghost ps = paths_view(paths@);
    let n = paths.len();
    let mut i: usize = 0;
    while i < n
        invariant
            n == paths@.len(),
            ps == paths_view(paths@),
            i <= n,
            entries_view(history.entries@) == merged(s0, ps.subrange(0, i as int), now),
            forall|q: Seq<char>| visits_in(s0, q) + #[trigger] occurrences(ps, q) <= usize::MAX,
            history.chain == old(history).chain,
        decreases n - i,
    {
        let ghost p = paths@[i as int]@;
        proof {
            let pre = ps.subrange(0, i + 1);
            assert(pre.drop_last() =~= ps.subrange(0, i as int));
            assert(pre.last() == p);
            lemma_seed_merges(s0, ps.subrange(0, i as int), now, p);
            lemma_occurrences_prefix(ps, i + 1, p);
            assert(visits_in(s0, p) + occurrences(ps, p) <= usize::MAX);
        }
        history.record_bump(paths[i].as_str(), now);
        i = i + 1;
    }
    proof {
        assert(ps.subrange(0, n as int) =~= ps);
    }
}

/// Records every consecutive pair of `paths` as a move in the history's
/// chain, in order (pairs with a relative path or a repeated directory are
/// not recorded).
pub fn merge_session(history: &mut History, paths: &[String])
    requires
        old(history).wf(),
        forall|k: Seq<Seq<char>>, t: Seq<char>|
            old(history).chain.count(k, t) + #[trigger] moves(paths_view(paths@), k, t) <= usize::MAX,
    ensures
        final(history).wf(),
        final(history).entries == old(history).entries,
        forall|k: Seq<Seq<char>>, t: Seq<char>|
            #[trigger] final(history).chain.count(k, t) == old(history).chain.count(k, t) + moves(
                paths_view(paths@),
                k,
                t,
            ),
        forall|k: Seq<Seq<char>>|
            #[trigger] final(history).chain.total(k) == old(history).chain.total(k) + moves_from(
                paths_view(paths@),
                k,
            ),
        final(history).chain.pairs() == old(history).chain.pairs() + seeded_pairs(paths_view(paths@)),
{
    let ghost h0 = *history;
    let ghost ps = paths_view(paths@);
    let n = paths.len();
    if n < 2 {
        proof {
            assert(history.chain.pairs() + Set::empty() =~= history.chain.pairs());
        }
        return;
    }
    let mut i: usize = 0;
    while i + 1 < n
        invariant
            n == paths@.len(),
            n >= 2,
            ps == paths_view(paths@),
            i + 1 <= n,
            history.wf(),
            history.entries == h0.entries,
            forall|k: Seq<Seq<char>>, t: Seq<char>| h0.chain.count(k, t) + #[trigger] moves(ps, k, t) <= usize::MAX,
            forall|k: Seq<Seq<char>>, t: Seq<char>|
                #[trigger] history.chain.count(k, t) == h0.chain.count(k, t) + moves(
                    ps.subrange(0, i + 1),
                    k,
                    t,
                ),
            forall|k: Seq<Seq<char>>|
                #[trigger] history.chain.total(k) == h0.chain.total(k) + moves_from(ps.subrange(0, i + 1), k),
            history.chain.pairs() == h0.chain.pairs() + seeded_pairs(ps.subrange(0, i + 1)),
        decreases n - i,
    {
        let ghost before = *history;
        proof {
            assert(seeded_pairs(ps.subrange(0, 1)) =~= Set::empty());
            let sub = ps.subrange(0, i + 2);
            assert(sub.drop_last() =~= ps.subrange(0, i + 1));
            assert(sub[sub.len() - 2] == paths@[i as int]@);
            assert(sub.last() == paths@[i + 1]@);
            let a = paths@[i as int]@;
            let b = paths@[i + 1]@;
            if is_absolute(a) && is_absolute(b) && a != b {
                lemma_moves_prefix(ps, i + 2, seq![a], b);
                assert(moves(sub, seq![a], b) == moves(ps.subrange(0, i + 1), seq![a], b) + 1);
                assert(h0.chain.count(seq![a], b) + moves(ps, seq![a], b) <= usize::MAX);
                assert(history.chain.count(seq![a], b) < usize::MAX);
                assert forall|k: Seq<Seq<char>>|
                    a != b && registered_key(Seq::empty(), a, k) implies #[trigger] history.chain.count(k, b)
                    < usize::MAX by {
                    assert(k.len() == 1);
                    assert(k =~= seq![a]);
                }
            }
        }
        history.register_markov_chain(paths[i].as_str(), paths[i + 1].as_str());
        proof {
            let sub = ps.subrange(0, i + 2);
            let a = sub[sub.len() - 2];
            let b = sub.last();
            if is_absolute(a) && is_absolute(b) && a != b {
                assert(h0.chain.pairs() + seeded_pairs(ps.subrange(0, i + 2)) =~= (h0.chain.pairs() + seeded_pairs(
                    ps.subrange(0, i + 1),
                )).insert((seq![a], b)));
            } else {
                assert(h0.chain.pairs() + seeded_pairs(ps.subrange(0, i + 2)) =~= h0.chain.pairs() + seeded_pairs(
                    ps.subrange(0, i + 1),
                ));
            }
        }
        i = i + 1;
    }
    proof {
        assert(ps.subrange(0, n as int) =~= ps);
    }
}

/// The index of the first `;` in `s`, or -1.
pub open spec fn first_semicolon(s: Seq<char>) -> int
    decreases s.len(),
{
    if s.len() == 0 {
        -1
    } else {
        let r = first_semicolon(s.drop_last());
        if r >= 0 {
            r
        } else if s.last() == ';' {
            s.len() - 1
        } else {
            -1
        }
    }
}

proof fn lemma_first_semicolon(s: Seq<char>, i: int)
    requires
        0 <= i <= s.len(),
        forall|j: int| 0 <= j < i ==> #[trigger] s[j] != ';',
        i == s.len() || s[i] == ';',
    ensures
        first_semicolon(s) == if i < s.len() { i } else { -1 },
    decreases s.len(),
{
    if s.len() > 0 {
        let d = s.drop_last();
        if i < s.len() - 1 {
            assert forall|j: int| 0 <= j < i implies #[trigger] d[j] != ';' by {
                assert(d[j] == s[j]);
            }
            assert(d[i] == s[i]);
            lemma_first_semicolon(d, i);
        } else {
            assert forall|j: int| 0 <= j < d.len() implies #[trigger] d[j] != ';' by {
                assert(d[j] == s[j]);
            }
            lemma_first_semicolon(d, d.len() as int);
        }
    }
}

/// The command of a history line: a zsh extended-history line (`: <time>:<n>;`
/// then the command) gives what follows its first `;`, and has no command
/// without one; any other line is the command itself.
pub open spec fn command_part(line: Seq<char>) -> Option<Seq<char>> {
    if line.len() >= 2 && line[0] == ':' && line[1] == ' ' {
        let k = first_semicolon(line);
        if k >= 0 {
            Some(line.subrange(k + 1, line.len() as int))
        } else {
            None
        }
    } else {
        Some(line)
    }
}

/// The argument of the `cd` command on a history line, trimmed; `None` when
/// the (trimmed) command does not start with `cd `.
pub open spec fn cd_argument(line: Seq<char>) -> Option<Seq<char>> {
    match command_part(line) {
        Some(c) => {
            let t = trimmed(c);
            if t.len() >= 3 && t[0] == 'c' && t[1] == 'd' && t[2] == ' ' {
                Some(trimmed(t.subrange(3, t.len() as int)))
            } else {
                None
            }
        },
        None => None,
    }
}

/// `s` with every `~` replaced by `home`.
pub open spec fn replace_tilde(s: Seq<char>, home: Seq<char>) -> Seq<char>
    decreases s.len(),
{
    if s.len() == 0 {
        s
    } else {
        replace_tilde(s.drop_last(), home) + if s.last() == '~' {
            home
        } else {
            seq![s.last()]
        }
    }
}

/// The relative path `rel` joined onto `base`, as `PathBuf::join` does on
/// Unix: a `/` goes between them unless `base` is empty or ends in one.
pub open spec fn joined(base: Seq<char>, rel: Seq<char>) -> Seq<char> {
    if base.len() > 0 && base.last() != '/' {
        base + seq!['/'] + rel
    } else {
        base + rel
    }
}

/// Where `cd dir` leads from `current`: nowhere for an empty argument or
/// `-`; otherwise `dir` with `~` expanded to `home`, taken relative to
/// `current` unless it is absolute.
pub open spec fn cd_target(dir: Seq<char>, home: Seq<char>, current: Seq<char>) -> Option<Seq<char>> {
    if dir.len() == 0 || dir == seq!['-'] {
        None
    } else {
        let expanded = if dir == seq!['~'] {
            home
        } else {
            replace_tilde(dir, home)
        };
        Some(if is_absolute(expanded) { expanded } else { joined(current, expanded) })
    }
}

/// The trimmed argument of a `cd` command on one line of a shell history
/// file (bash, or zsh with or without extended history); `None` when the
/// line holds no `cd` command.
pub fn parse_cd_line(line: &str) -> (r: Option<String>)
    ensures
        match r {
            Some(d) => cd_argument(line@) == Some(d@),
            None => cd_argument(line@) is None,
        },
{
    let v = chars_of(line);
    let len = v.len();
    let mut start: usize = 0;
    if len >= 2 && v[0] == ':' && v[1] == ' ' {
        let mut k: usize = 0;
        while k < len && v[k] != ';'
            invariant
                k <= len == v@.len(),
                forall|j: int| 0 <= j < k ==> #[trigger] v@[j] != ';',
            decreases len - k,
        {
            k = k + 1;
        }
        proof {
            lemma_first_semicolon(v@, k as int);
        }
        if k == len {
            return None;
        }
        start = k + 1;
    }
    proof {
        if start == 0 {
            assert(v@.subrange(0, len as int) =~= v@);
        }
        assert(command_part(line@) == Some(v@.subrange(start as int, len as int)));
    }
    let (lo, hi) = trim_bounds(&v, start, len);
    if hi - lo >= 3 && v[lo] == 'c' && v[lo + 1] == 'd' && v[lo + 2] == ' ' {
        let (a, b) = trim_bounds(&v, lo + 3, hi);
        proof {
            let t = v@.subrange(lo as int, hi as int);
            assert(t.subrange(3, t.len() as int) =~= v@.subrange(lo + 3, hi as int));
        }
        Some(owned(line.substring_char(a, b)))
    } else {
        None
    }
}

/// Where `cd dir` leads from `current` (see `cd_target`): `None` for an empty
/// argument or `-`.
pub fn resolve_cd_target(dir: &str, home: &str, current: &str) -> (r: Option<String>)
    ensures
        match r {
            Some(p) => cd_target(dir@, home@, current@) == Some(p@),
            None => cd_target(dir@, home@, current@) is None,
        },
{
    let v = chars_of(dir);
    if v.len() == 0 {
        return None;
    }
    if v.len() == 1 && v[0] == '-' {
        proof {
            assert(dir@ =~= seq!['-']);
        }
        return None;
    }
    proof {
        if dir@ == seq!['-'] {
            assert(v@.len() == 1 && v@[0] == '-');
        }
    }
    let expanded = if v.len() == 1 && v[0] == '~' {
        proof {
            assert(dir@ =~= seq!['~']);
        }
        owned(home)
    } else {
        proof {
            if dir@ == seq!['~'] {
                assert(v@.len() == 1 && v@[0] == '~');
            }
        }
        expand_tilde(dir, &v, home)
    };
    if path_is_absolute(expanded.as_str()) {
        Some(expanded)
    } else {
        let mut out = owned(current);
        let cv = chars_of(current);
        if cv.len() > 0 && cv[cv.len() - 1] != '/' {
            proof {
                reveal_strlit("/");
            }
            out.append("/");
        }
        out.append(expanded.as_str());
        proof {
            assert(out@ =~= joined(current@, expanded@));
        }
        Some(out)
    }
}

fn expand_tilde(dir: &str, v: &Vec<char>, home: &str) -> (r: String)
    requires
        v@ == dir@,
    ensures
        r@ == replace_tilde(dir@, home@),
{
    let mut out = String::new();
    let mut i: usize = 0;
    while i < v.len()
        invariant
            v@ == dir@,
            i <= v@.len(),
            out@ == replace_tilde(dir@.subrange(0, i as int), home@),
        decreases v@.len() - i,
    {
        proof {
            assert(dir@.subrange(0, i + 1).drop_last() =~= dir@.subrange(0, i as int));
        }
        if v[i] == '~' {
            out.append(home);
        } else {
            let one = dir.substring_char(i, i + 1);
            proof {
                assert(one@ =~= seq![v@[i as int]]);
            }
            out.append(one);
        }
        proof {
            assert(out@ =~= replace_tilde(dir@.subrange(0, i + 1), home@));
        }
        i = i + 1;
    }
    proof {
        assert(dir@.subrange(0, i as int) =~= dir@);
    }
    out
}

} // verus!
