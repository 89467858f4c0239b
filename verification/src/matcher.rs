use vstd::prelude::*;

use pathfinding::matrix::Matrix;
use pathfinding::prelude::kuhn_munkres;

use crate::text::chars_of;

verus! {

/// How a query token matches a path segment.
pub enum Matchkind {
    Exact,
    Prefix,
    Substring,
    Fuzzy,
}

/// `t` is a prefix of `n`.
pub open spec fn is_prefix(t: Seq<char>, n: Seq<char>) -> bool {
    t.len() <= n.len() && n.subrange(0, t.len() as int) == t
}

/// `t` occurs in `n` at position `i`.
pub open spec fn occurs_at(t: Seq<char>, n: Seq<char>, i: int) -> bool {
    0 <= i && i + t.len() <= n.len() && n.subrange(i, i + t.len()) == t
}

/// `t` occurs somewhere in `n`.
pub open spec fn occurs_in(t: Seq<char>, n: Seq<char>) -> bool {
    exists|i: int| occurs_at(t, n, i)
}

/// The strong kind of match of `token` against segment `name`: the same text,
/// a prefix, or a substring (tested in that order); none otherwise.
pub open spec fn strong_kind_of(name: Seq<char>, token: Seq<char>) -> Option<Matchkind> {
    if name == token {
        Some(Matchkind::Exact)
    } else if is_prefix(token, name) {
        Some(Matchkind::Prefix)
    } else if occurs_in(token, name) {
        Some(Matchkind::Substring)
    } else {
        None
    }
}

fn matches_at(n: &Vec<char>, t: &Vec<char>, i: usize) -> (r: bool)
    requires
        i + t@.len() <= n@.len(),
    ensures
        r == (n@.subrange(i as int, i + t@.len()) == t@),
{
    let mut j: usize = 0;
    while j < t.len()
        invariant
            i + t.len() <= n.len(),
            j <= t.len(),
            forall|k: int| 0 <= k < j ==> n@[i + k] == t@[k],
        decreases t@.len() - j,
    {
        if n[i + j] != t[j] {
            proof {
                assert(n@.subrange(i as int, i + t@.len())[j as int] != t@[j as int]);
            }
            return false;
        }
        j = j + 1;
    }
    proof {
        assert(n@.subrange(i as int, i + t@.len()) =~= t@);
    }
    true
}

/// The strong kind of match of `token` against the path segment `name`, as
/// `strong_kind_of` says. (Prefix and substring tests on characters agree
/// with the byte-wise ones of `str::starts_with` and `str::contains`.)
pub fn strong_kind(name: &str, token: &str) -> (r: Option<Matchkind>)
    ensures
        r == strong_kind_of(name@, token@),
{
    let n = chars_of(name);
    let t = chars_of(token);
    if n.len() == t.len() && matches_at(&n, &t, 0) {
        proof {
            assert(n@.subrange(0, t@.len() as int) =~= n@);
        }
        return Some(Matchkind::Exact);
    }
    proof {
        if name@ == token@ {
            assert(n@.subrange(0, t@.len() as int) =~= n@);
        }
    }
    if t.len() > n.len() {
        proof {
            assert forall|i: int| !occurs_at(token@, name@, i) by {}
        }
        return None;
    }
    if matches_at(&n, &t, 0) {
        return Some(Matchkind::Prefix);
    }
    proof {
        if t@.len() == 0 {
            assert(n@.subrange(0, 0) =~= t@);
        }
    }
    let mut i: usize = 1;
    while i <= n.len() - t.len()
        invariant
            n@ == name@,
            t@ == token@,
            name@ != token@,
            !is_prefix(token@, name@),
            1 <= t.len() <= n.len(),
            1 <= i <= n.len() - t.len() + 1,
            forall|k: int| 0 <= k < i ==> !occurs_at(token@, name@, k),
        decreases n@.len() - i,
    {
        if matches_at(&n, &t, i) {
            proof {
                assert(occurs_at(token@, name@, i as int));
            }
            return Some(Matchkind::Substring);
        }
        i = i + 1;
    }
    proof {
        assert forall|k: int| !occurs_at(token@, name@, k) by {
            if 0 <= k && k + token@.len() <= name@.len() {
                assert(k < i);
            }
        }
    }
    None
}

/// The fuzzy score, in half points, of the greedy scan that has matched the
/// first `j` characters of `token` and resumes at character `i` of `name`,
/// the previous match at `last`, the score so far `score`. Each matched
/// character earns 10 points, 15 more right after the previous match, minus
/// one point per character skipped since the previous match, or minus half a
/// point per character before the first match. A complete match scores at
/// least one point.
pub open spec fn fuzzy_from(
    name: Seq<char>,
    token: Seq<char>,
    i: nat,
    j: nat,
    last: Option<nat>,
    score: int,
) -> Option<int>
    decreases name.len() - i,
{
    if i >= name.len() || j >= token.len() {
        None
    } else if name[i as int] == token[j as int] {
        let s2 = score + 20 + match last {
            Some(p) => if i == p + 1 {
                30
            } else {
                -2 * (i - p - 1)
            },
            None => -(i as int),
        };
        if j + 1 == token.len() {
            Some(if s2 > 2 { s2 } else { 2 })
        } else {
            fuzzy_from(name, token, i + 1, j + 1, Some(i), s2)
        }
    } else {
        fuzzy_from(name, token, i + 1, j, last, score)
    }
}

proof fn lemma_fuzzy_from_floor(name: Seq<char>, token: Seq<char>, i: nat, j: nat, last: Option<nat>, score: int)
    ensures
        fuzzy_from(name, token, i, j, last, score) matches Some(s) ==> s >= 2,
    decreases name.len() - i,
{
    if i < name.len() && j < token.len() {
        if name[i as int] == token[j as int] {
            let s2 = score + 20 + match last {
                Some(p) => if i == p + 1 {
                    30
                } else {
                    -2 * (i - p - 1)
                },
                None => -(i as int),
            };
            if j + 1 != token.len() {
                lemma_fuzzy_from_floor(name, token, i + 1, j + 1, Some(i), s2);
            }
        } else {
            lemma_fuzzy_from_floor(name, token, i + 1, j, last, score);
        }
    }
}

/// A fuzzy match always scores something: at least one point (two half
/// points), however late and scattered its characters.
pub proof fn lemma_fuzzy_score_positive(name: Seq<char>, token: Seq<char>)
    ensures
        fuzzy_score(name, token) matches Some(s) ==> s >= 2,
{
    lemma_fuzzy_from_floor(name, token, 0, 0, None, 0);
}

/// `idx` picks, in increasing order, positions of `name` from `i` on that
/// hold the characters of `token` from `j` on.
pub open spec fn picks(idx: Seq<int>, name: Seq<char>, token: Seq<char>, i: int, j: int) -> bool {
    &&& idx.len() == token.len() - j
    &&& forall|k: int| 0 <= k < idx.len() ==> i <= #[trigger] idx[k] < name.len()
    &&& forall|k: int| 0 <= k < idx.len() ==> name[#[trigger] idx[k]] == token[j + k]
    &&& forall|a: int, b: int| 0 <= a < b < idx.len() ==> #[trigger] idx[a] < #[trigger] idx[b]
}

/// The characters of `token` occur in `name` in order (not necessarily
/// next to each other).
pub open spec fn is_subsequence(token: Seq<char>, name: Seq<char>) -> bool {
    exists|idx: Seq<int>| #[trigger] picks(idx, name, token, 0, 0)
}

proof fn lemma_fuzzy_from_subsequence(
    name: Seq<char>,
    token: Seq<char>,
    i: nat,
    j: nat,
    last: Option<nat>,
    score: int,
)
    requires
        j <= token.len(),
    ensures
        (fuzzy_from(name, token, i, j, last, score) is Some) <==> (j < token.len() && exists|idx: Seq<int>|
            #[trigger] picks(idx, name, token, i as int, j as int)),
    decreases name.len() - i,
{
    if i >= name.len() || j >= token.len() {
        if j < token.len() && exists|idx: Seq<int>| #[trigger] picks(idx, name, token, i as int, j as int) {
            let idx = choose|idx: Seq<int>| #[trigger] picks(idx, name, token, i as int, j as int);
            assert(i <= idx[0] < name.len());
        }
    } else if name[i as int] == token[j as int] {
        let s2 = score + 20 + match last {
            Some(p) => if i == p + 1 {
                30
            } else {
                -2 * (i - p - 1)
            },
            None => -(i as int),
        };
        if j + 1 == token.len() {
            let idx = seq![i as int];
            assert(picks(idx, name, token, i as int, j as int));
        } else {
            lemma_fuzzy_from_subsequence(name, token, i + 1, j + 1, Some(i), s2);
            if exists|idx: Seq<int>| #[trigger] picks(idx, name, token, i + 1 as int, j + 1 as int) {
                let idx = choose|idx: Seq<int>| #[trigger] picks(idx, name, token, i + 1 as int, j + 1 as int);
                let full = seq![i as int] + idx;
                assert forall|a: int, b: int| 0 <= a < b < full.len() implies #[trigger] full[a] < #[trigger] full[b] by {
                    if a > 0 {
                        assert(full[a] == idx[a - 1] && full[b] == idx[b - 1]);
                    } else {
                        assert(full[b] == idx[b - 1]);
                    }
                }
                assert forall|k: int| 0 <= k < full.len() implies name[#[trigger] full[k]] == token[j + k] by {
                    if k > 0 {
                        assert(full[k] == idx[k - 1]);
                    }
                }
                assert forall|k: int| 0 <= k < full.len() implies i <= #[trigger] full[k] < name.len() by {
                    if k > 0 {
                        assert(full[k] == idx[k - 1]);
                    }
                }
                assert(picks(full, name, token, i as int, j as int));
            }
            if exists|idx: Seq<int>| #[trigger] picks(idx, name, token, i as int, j as int) {
                let idx = choose|idx: Seq<int>| #[trigger] picks(idx, name, token, i as int, j as int);
                let rest = idx.drop_first();
                assert forall|k: int| 0 <= k < rest.len() implies i + 1 <= #[trigger] rest[k] < name.len() by {
                    assert(rest[k] == idx[k + 1]);
                    assert(idx[0] < idx[k + 1]);
                }
                assert forall|k: int| 0 <= k < rest.len() implies name[#[trigger] rest[k]] == token[(j + 1) + k] by {
                    assert(rest[k] == idx[k + 1]);
                }
                assert forall|a: int, b: int| 0 <= a < b < rest.len() implies #[trigger] rest[a] < #[trigger] rest[b] by {
                    assert(rest[a] == idx[a + 1] && rest[b] == idx[b + 1]);
                }
                assert(picks(rest, name, token, i + 1 as int, j + 1 as int));
            }
        }
    } else {
        lemma_fuzzy_from_subsequence(name, token, i + 1, j, last, score);
        if exists|idx: Seq<int>| #[trigger] picks(idx, name, token, i as int, j as int) {
            let idx = choose|idx: Seq<int>| #[trigger] picks(idx, name, token, i as int, j as int);
            assert(name[idx[0]] == token[j as int]);
            assert forall|k: int| 0 <= k < idx.len() implies i + 1 <= #[trigger] idx[k] < name.len() by {
                if k > 0 {
                    assert(idx[0] < idx[k]);
                }
            }
            assert(picks(idx, name, token, i + 1 as int, j as int));
        }
        if exists|idx: Seq<int>| #[trigger] picks(idx, name, token, i + 1 as int, j as int) {
            let idx = choose|idx: Seq<int>| #[trigger] picks(idx, name, token, i + 1 as int, j as int);
            assert(picks(idx, name, token, i as int, j as int));
        }
    }
}

/// A keyword fuzzily matches a path segment exactly when its characters
/// occur in the segment in order, however far apart: the score is `Some`
/// for every non-empty subsequence, and `None` otherwise.
pub proof fn lemma_fuzzy_matches_subsequences(name: Seq<char>, token: Seq<char>)
    ensures
        (fuzzy_score(name, token) is Some) <==> (token.len() > 0 && is_subsequence(token, name)),
{
    lemma_fuzzy_from_subsequence(name, token, 0, 0, None, 0);
}

/// The fuzzy score of `token` against `name`, in half points: `None` when
/// the characters of `token` do not all occur in `name` in order.
pub open spec fn fuzzy_score(name: Seq<char>, token: Seq<char>) -> Option<int> {
    fuzzy_from(name, token, 0, 0, None, 0)
}

/// Sequential character fuzzy match with position-based scoring, in half
/// points (see `fuzzy_from`): the characters of `token` are matched in order
/// against `name`, each as early as possible.
pub fn fuzzy_match(name: &str, token: &str) -> (r: Option<i128>)
    ensures
        match r {
            Some(s) => fuzzy_score(name@, token@) == Some(s as int),
            None => fuzzy_score(name@, token@) is None,
        },
{
    let n = chars_of(name);
    let t = chars_of(token);
    if t.len() == 0 {
        return None;
    }
    let mut score: i128 = 0;
    let mut last: Option<usize> = None;
    let mut j: usize = 0;
    let mut i: usize = 0;
    while i < n.len()
        invariant
            n@ == name@,
            t@ == token@,
            i <= n@.len(),
            j < t@.len(),
            score <= 50 * (i as int),
            match last {
                Some(p) => p < i && -2 * (p as int) <= score,
                None => score == 0,
            },
            fuzzy_from(name@, token@, i as nat, j as nat, match last {
                Some(p) => Some(p as nat),
                None => None,
            }, score as int) == fuzzy_score(name@, token@),
        decreases n@.len() - i,
    {
        if n[i] == t[j] {
            score = score + 20;
            match last {
                Some(p) => {
                    if i == p + 1 {
                        score = score + 30;
                    } else {
                        score = score - 2 * ((i - p - 1) as i128);
                    }
                },
                None => {
                    score = score - (i as i128);
                },
            }
            last = Some(i);
            if j == t.len() - 1 {
                return Some(if score > 2 { score } else { 2 });
            }
            j = j + 1;
        }
        i = i + 1;
    }
    None
}

/// The cells of a weight matrix, row by row.
pub open spec fn cells_view(m: Seq<Vec<i64>>) -> Seq<Seq<i64>> {
    m.map_values(|row: Vec<i64>| row@)
}

/// `a` assigns each of `rows` rows a column below `cols`, no column twice.
pub open spec fn is_assignment(a: Seq<usize>, rows: nat, cols: nat) -> bool {
    &&& a.len() == rows
    &&& forall|i: int| 0 <= i < rows ==> (#[trigger] a[i]) < cols
    &&& forall|i: int, j: int| 0 <= i < j < rows ==> (#[trigger] a[i]) != (#[trigger] a[j])
}

/// The total weight of the cells that assignment `a` picks in `m`.
pub open spec fn assignment_weight(m: Seq<Seq<i64>>, a: Seq<usize>) -> int
    decreases a.len(),
{
    if a.len() == 0 {
        0
    } else {
        assignment_weight(m, a.drop_last()) + m[a.len() - 1][a.last() as int]
    }
}

/// A sum of cells picked from rows of non-negative cells is not negative.
proof fn lemma_weight_nonneg(m: Seq<Seq<i64>>, a: Seq<usize>)
    requires
        forall|i: int| 0 <= i < a.len() ==> 0 <= #[trigger] a[i] < m[i].len(),
        forall|i: int, j: int| 0 <= i < a.len() && 0 <= j < m[i].len() ==> 0 <= #[trigger] m[i][j],
        a.len() <= m.len(),
    ensures
        assignment_weight(m, a) >= 0,
    decreases a.len(),
{
    if a.len() > 0 {
        let d = a.drop_last();
        assert forall|i: int| 0 <= i < d.len() implies 0 <= #[trigger] d[i] < m[i].len() by {
            assert(d[i] == a[i]);
        }
        lemma_weight_nonneg(m, d);
        assert(0 <= m[a.len() - 1][a.last() as int]);
    }
}

/// `v` is the largest total weight that an assignment of the first `rows`
/// rows of `m` to distinct columns below `cols` reaches.
pub open spec fn is_best(m: Seq<Seq<i64>>, rows: nat, cols: nat, v: int) -> bool {
    &&& exists|a: Seq<usize>| is_assignment(a, rows, cols) && assignment_weight(m, a) == v
    &&& forall|a: Seq<usize>| is_assignment(a, rows, cols) ==> assignment_weight(m, a) <= v
}

/// The sum of a sequence of integers.
pub open spec fn seq_sum(s: Seq<int>) -> int
    decreases s.len(),
{
    if s.len() == 0 {
        0
    } else {
        seq_sum(s.drop_last()) + s.last()
    }
}

proof fn lemma_sum_update(s: Seq<int>, k: int, x: int)
    requires
        0 <= k < s.len(),
    ensures
        seq_sum(s.update(k, x)) == seq_sum(s) - s[k] + x,
    decreases s.len(),
{
    let u = s.update(k, x);
    if k == s.len() - 1 {
        assert(u.drop_last() =~= s.drop_last());
    } else {
        assert(u.drop_last() =~= s.drop_last().update(k, x));
        lemma_sum_update(s.drop_last(), k, x);
    }
}

/// The weight of an assignment is the sum of the cells it picks.
proof fn lemma_weight_as_sum(m: Seq<Seq<i64>>, a: Seq<usize>)
    ensures
        assignment_weight(m, a) == seq_sum(Seq::new(a.len(), |i: int| m[i][a[i] as int] as int)),
    decreases a.len(),
{
    if a.len() > 0 {
        let d = a.drop_last();
        lemma_weight_as_sum(m, d);
        assert(Seq::new(d.len(), |i: int| m[i][d[i] as int] as int) =~= Seq::new(
            a.len(),
            |i: int| m[i][a[i] as int] as int,
        ).drop_last());
    }
}

/// `perm` reorders `0..n` and `inv` undoes it.
pub open spec fn is_reordering(perm: Seq<usize>, inv: Seq<usize>, n: nat) -> bool {
    &&& perm.len() == n
    &&& inv.len() == n
    &&& forall|i: int| 0 <= i < n ==> (#[trigger] perm[i]) < n && inv[perm[i] as int] == i
    &&& forall|j: int| 0 <= j < n ==> (#[trigger] inv[j]) < n && perm[inv[j] as int] == j
}

/// Summing `h` over a reordering of `0..n` gives the same as over `0..n`.
proof fn lemma_sum_reordered(h: spec_fn(int) -> int, perm: Seq<usize>, inv: Seq<usize>, n: nat)
    requires
        is_reordering(perm, inv, n),
    ensures
        seq_sum(Seq::new(n, |i: int| h(perm[i] as int))) == seq_sum(Seq::new(n, |j: int| h(j))),
    decreases n,
{
    if n > 0 {
        let s = Seq::new(n, |i: int| h(perm[i] as int));
        let k = inv[n - 1] as int;
        let perm2 = perm.update(k, perm[n - 1]).drop_last();
        let inv2 = Seq::new((n - 1) as nat, |j: int| if inv[j] as int == n - 1 { k as usize } else { inv[j] });
        assert(is_reordering(perm2, inv2, (n - 1) as nat)) by {
            assert forall|i: int| 0 <= i < n - 1 implies (#[trigger] perm2[i]) < n - 1 && inv2[perm2[i] as int] == i by {
                if i == k {
                    assert(perm2[i] == perm[n - 1]);
                    assert(inv[perm[n - 1] as int] == n - 1);
                    if perm[n - 1] as int == n - 1 {
                        assert(inv[n - 1] as int == n - 1);
                    }
                } else {
                    assert(perm2[i] == perm[i]);
                    if perm[i] as int == n - 1 {
                        assert(inv[n - 1] as int == i);
                    }
                }
            }
            assert forall|j: int| 0 <= j < n - 1 implies (#[trigger] inv2[j]) < n - 1 && perm2[inv2[j] as int] == j by {
                if inv[j] as int == n - 1 {
                    assert(perm[n - 1] as int == j);
                    if k == n - 1 {
                        assert(perm[k] as int == n - 1);
                    }
                } else {
                    if inv[j] as int == k {
                        assert(perm[k] as int == n - 1);
                    }
                }
            }
        }
        lemma_sum_reordered(h, perm2, inv2, (n - 1) as nat);
        let s2 = Seq::new((n - 1) as nat, |i: int| h(perm2[i] as int));
        assert(perm[k] as int == n - 1);
        if k < n - 1 {
            assert(s2 =~= s.drop_last().update(k, s[n - 1]));
            lemma_sum_update(s.drop_last(), k, s[n - 1]);
        } else {
            assert(s2 =~= s.drop_last());
        }
        assert(Seq::new((n - 1) as nat, |j: int| h(j)) =~= Seq::new(n, |j: int| h(j)).drop_last());
    }
}

/// The rows of `m` in the order `perm`: row `i` is row `perm[i]` of `m`.
pub open spec fn permuted_rows(m: Seq<Seq<i64>>, perm: Seq<usize>) -> Seq<Seq<i64>> {
    Seq::new(perm.len(), |i: int| m[perm[i] as int])
}

/// The `cols` by `rows` matrix whose row `j` is column `j` of `m`.
pub open spec fn transposed(m: Seq<Seq<i64>>, rows: nat, cols: nat) -> Seq<Seq<i64>> {
    Seq::new(cols, |j: int| Seq::new(rows, |i: int| m[i][j]))
}

/// `v` is the weight of a maximum-weight matching between the `rows` rows and
/// the `cols` columns of `m`, in which each row and each column is matched
/// at most once and the smaller side is matched in full: every row gets a
/// distinct column when there are no more rows than columns, and every
/// column a distinct row otherwise.
pub open spec fn is_best_matching(m: Seq<Seq<i64>>, rows: nat, cols: nat, v: int) -> bool {
    if rows <= cols {
        is_best(m, rows, cols, v)
    } else {
        is_best(transposed(m, rows, cols), cols, rows, v)
    }
}

/// Two assignments that pick equal cells, row by row, weigh the same.
proof fn lemma_weight_pointwise(m1: Seq<Seq<i64>>, a1: Seq<usize>, m2: Seq<Seq<i64>>, a2: Seq<usize>)
    requires
        a1.len() == a2.len(),
        forall|i: int| 0 <= i < a1.len() ==> #[trigger] m1[i][a1[i] as int] == m2[i][a2[i] as int],
    ensures
        assignment_weight(m1, a1) == assignment_weight(m2, a2),
    decreases a1.len(),
{
    if a1.len() > 0 {
        let d1 = a1.drop_last();
        let d2 = a2.drop_last();
        assert forall|i: int| 0 <= i < d1.len() implies #[trigger] m1[i][d1[i] as int] == m2[i][d2[i] as int] by {
            assert(d1[i] == a1[i] && d2[i] == a2[i]);
            assert(m1[i][a1[i] as int] == m2[i][a2[i] as int]);
        }
        lemma_weight_pointwise(m1, d1, m2, d2);
        assert(m1[a1.len() - 1][a1.last() as int] == m2[a1.len() - 1][a2.last() as int]);
    }
}

/// Reordering the columns of `t` (column `i` of the result is column
/// `perm[i]` of `t`) does not change the best total of its rows.
proof fn lemma_columns_reordered(
    t: Seq<Seq<i64>>,
    u: Seq<Seq<i64>>,
    perm: Seq<usize>,
    inv: Seq<usize>,
    rows: nat,
    n: nat,
    v: int,
)
    requires
        is_reordering(perm, inv, n),
        forall|j: int, i: int| 0 <= j < rows && 0 <= i < n ==> #[trigger] u[j][i] == t[j][perm[i] as int],
        is_best(t, rows, n, v),
    ensures
        is_best(u, rows, n, v),
{
    let b = choose|b: Seq<usize>| is_assignment(b, rows, n) && assignment_weight(t, b) == v;
    let a = Seq::new(rows, |j: int| inv[b[j] as int]);
    assert(is_assignment(a, rows, n)) by {
        assert forall|i: int, j: int| 0 <= i < j < rows implies (#[trigger] a[i]) != (#[trigger] a[j]) by {
            assert(b[i] != b[j]);
            assert(perm[inv[b[i] as int] as int] == b[i] && perm[inv[b[j] as int] as int] == b[j]);
        }
    }
    assert forall|j: int| 0 <= j < a.len() implies #[trigger] u[j][a[j] as int] == t[j][b[j] as int] by {
        assert(u[j][a[j] as int] == t[j][perm[a[j] as int] as int]);
    }
    lemma_weight_pointwise(u, a, t, b);
    assert forall|a2: Seq<usize>| is_assignment(a2, rows, n) implies assignment_weight(u, a2) <= v by {
        let b2 = Seq::new(rows, |j: int| perm[a2[j] as int]);
        assert(is_assignment(b2, rows, n)) by {
            assert forall|i: int, j: int| 0 <= i < j < rows implies (#[trigger] b2[i]) != (#[trigger] b2[j]) by {
                assert(a2[i] != a2[j]);
                assert(inv[perm[a2[i] as int] as int] == a2[i] && inv[perm[a2[j] as int] as int] == a2[j]);
            }
        }
        assert forall|j: int| 0 <= j < a2.len() implies #[trigger] u[j][a2[j] as int] == t[j][b2[j] as int] by {
            assert(u[j][a2[j] as int] == t[j][perm[a2[j] as int] as int]);
        }
        lemma_weight_pointwise(u, a2, t, b2);
    }
}

/// Reordering the first `perm.len()` rows of `m` keeps the best total of
/// those rows.
proof fn lemma_rows_reordered(m: Seq<Seq<i64>>, perm: Seq<usize>, inv: Seq<usize>, cols: nat, v: int)
    requires
        perm.len() <= m.len(),
        is_reordering(perm, inv, perm.len()),
        is_best(m, perm.len(), cols, v),
    ensures
        is_best(permuted_rows(m, perm), perm.len(), cols, v),
{
    let n = perm.len();
    let pm = permuted_rows(m, perm);
    let b = choose|b: Seq<usize>| is_assignment(b, n, cols) && assignment_weight(m, b) == v;
    let a = Seq::new(n, |i: int| b[perm[i] as int]);
    assert(is_assignment(a, n, cols)) by {
        assert forall|i: int, j: int| 0 <= i < j < n implies (#[trigger] a[i]) != (#[trigger] a[j]) by {
            if perm[i] < perm[j] {
                assert(b[perm[i] as int] != b[perm[j] as int]);
            } else if perm[j] < perm[i] {
                assert(b[perm[j] as int] != b[perm[i] as int]);
            } else {
                assert(inv[perm[i] as int] == i && inv[perm[j] as int] == j);
            }
        }
    }
    let h = |j: int| m[j][b[j] as int] as int;
    lemma_weight_as_sum(pm, a);
    lemma_weight_as_sum(m, b);
    lemma_sum_reordered(h, perm, inv, n);
    assert(Seq::new(n, |i: int| pm[i][a[i] as int] as int) =~= Seq::new(n, |i: int| h(perm[i] as int)));
    assert(Seq::new(n, |j: int| m[j][b[j] as int] as int) =~= Seq::new(n, |j: int| h(j)));
    assert(assignment_weight(pm, a) == v);
    assert forall|a2: Seq<usize>| is_assignment(a2, n, cols) implies assignment_weight(pm, a2) <= v by {
        let b2 = Seq::new(n, |j: int| a2[inv[j] as int]);
        assert(is_assignment(b2, n, cols)) by {
            assert forall|i: int, j: int| 0 <= i < j < n implies (#[trigger] b2[i]) != (#[trigger] b2[j]) by {
                if inv[i] < inv[j] {
                    assert(a2[inv[i] as int] != a2[inv[j] as int]);
                } else if inv[j] < inv[i] {
                    assert(a2[inv[j] as int] != a2[inv[i] as int]);
                } else {
                    assert(perm[inv[i] as int] == i && perm[inv[j] as int] == j);
                }
            }
        }
        let h2 = |j: int| m[j][a2[inv[j] as int] as int] as int;
        lemma_weight_as_sum(pm, a2);
        lemma_weight_as_sum(m, b2);
        lemma_sum_reordered(h2, perm, inv, n);
        assert(Seq::new(n, |i: int| pm[i][a2[i] as int] as int) =~= Seq::new(n, |i: int| h2(perm[i] as int)));
        assert(Seq::new(n, |j: int| m[j][b2[j] as int] as int) =~= Seq::new(n, |j: int| h2(j)));
    }
}

/// Keywords may be given in any order: reordering the tokens (the rows of the
/// score matrix, however many) does not change the best total they reach
/// against the segments (the columns).
pub proof fn lemma_token_order_irrelevant(m: Seq<Seq<i64>>, perm: Seq<usize>, inv: Seq<usize>, cols: nat, v: int)
    requires
        is_reordering(perm, inv, m.len()),
        is_best_matching(m, m.len(), cols, v),
    ensures
        is_best_matching(permuted_rows(m, perm), m.len(), cols, v),
{
    let n = m.len();
    let pm = permuted_rows(m, perm);
    if n <= cols {
        lemma_rows_reordered(m, perm, inv, cols, v);
    } else {
        let t = transposed(m, n, cols);
        let u = transposed(pm, n, cols);
        assert forall|j: int, i: int| 0 <= j < cols && 0 <= i < n implies #[trigger] u[j][i] == t[j][perm[i] as int] by {
            assert(u[j][i] == pm[i][j]);
            assert(pm[i] == m[perm[i] as int]);
        }
        lemma_columns_reordered(t, u, perm, inv, cols, n, v);
    }
}

/// Two values that are both the best total of the same rows are equal.
proof fn lemma_is_best_unique(m: Seq<Seq<i64>>, rows: nat, cols: nat, v: int, w: int)
    requires
        is_best(m, rows, cols, v),
        is_best(m, rows, cols, w),
    ensures
        v == w,
{
    let a = choose|a: Seq<usize>| is_assignment(a, rows, cols) && assignment_weight(m, a) == v;
    let b = choose|b: Seq<usize>| is_assignment(b, rows, cols) && assignment_weight(m, b) == w;
    assert(assignment_weight(m, a) <= w);
    assert(assignment_weight(m, b) <= v);
}

/// The best total is one number: two values that are both best are equal.
pub proof fn lemma_best_unique(m: Seq<Seq<i64>>, rows: nat, cols: nat, v: int, w: int)
    requires
        is_best_matching(m, rows, cols, v),
        is_best_matching(m, rows, cols, w),
    ensures
        v == w,
{
    if rows <= cols {
        lemma_is_best_unique(m, rows, cols, v, w);
    } else {
        lemma_is_best_unique(transposed(m, rows, cols), cols, rows, v, w);
    }
}

/// The largest weight a single cell may hold.
pub const MAX_CELL: i64 = 1_000_000;

/// The Hungarian algorithm (Kuhn-Munkres) of `pathfinding`: on the matrix
/// made of the first `rows` rows of `weights`, each `cols` wide, it returns
/// the weight of a maximum-weight matching of the rows to distinct columns
/// and, for each row, the column it gets. The contract states what
/// `pathfinding::kuhn_munkres::kuhn_munkres` documents: every row gets a
/// distinct column, the total is the weight of that assignment, and no
/// assignment weighs more. It panics when there are more rows than columns,
/// and can overflow on large weights; `requires` rules both out.
#[verifier::external_body]
fn kuhn_munkres_max(weights: &Vec<Vec<i64>>, rows: usize, cols: usize) -> (r: (i64, Vec<usize>))
    requires
        1 <= cols,
        rows <= cols,
        rows <= weights@.len(),
        rows <= MAX_CELL,
        forall|i: int| 0 <= i < rows ==> (#[trigger] weights@[i])@.len() == cols,
        forall|i: int, j: int| 0 <= i < rows && 0 <= j < cols ==> 0 <= #[trigger] weights@[i]@[j] <= MAX_CELL,
    ensures
        is_assignment(r.1@, rows as nat, cols as nat),
        r.0 as int == assignment_weight(cells_view(weights@), r.1@),
        forall|a: Seq<usize>|
            is_assignment(a, rows as nat, cols as nat) ==> assignment_weight(cells_view(weights@), a) <= r.0,
{
    let matrix = Matrix::from_fn(rows, cols, |(r, c)| weights[r][c]);
    kuhn_munkres(&matrix)
}

/// The rows of `cells`, each `columns` wide, turned into columns.
fn transpose(cells: &Vec<Vec<i64>>, columns: usize) -> (t: Vec<Vec<i64>>)
    requires
        forall|i: int| 0 <= i < cells@.len() ==> (#[trigger] cells@[i])@.len() == columns,
    ensures
        cells_view(t@) == transposed(cells_view(cells@), cells@.len(), columns as nat),
{
    let ghost m = cells_view(cells@);
    let n = cells.len();
    let mut t: Vec<Vec<i64>> = Vec::new();
    let mut j: usize = 0;
    while j < columns
        invariant
            n == cells@.len(),
            m == cells_view(cells@),
            forall|i: int| 0 <= i < cells@.len() ==> (#[trigger] cells@[i])@.len() == columns,
            j <= columns,
            t@.len() == j,
            forall|c: int| 0 <= c < j ==> (#[trigger] t@[c])@ == Seq::new(n as nat, |i: int| m[i][c]),
        decreases columns - j,
    {
        let mut col: Vec<i64> = Vec::new();
        let mut i: usize = 0;
        while i < n
            invariant
                n == cells@.len(),
                m == cells_view(cells@),
                forall|r: int| 0 <= r < cells@.len() ==> (#[trigger] cells@[r])@.len() == columns,
                j < columns,
                i <= n,
                col@ == Seq::new(i as nat, |r: int| m[r][j as int]),
            decreases n - i,
        {
            assert(m[i as int] == cells@[i as int]@);
            col.push(cells[i][j]);
            i = i + 1;
            assert(col@ =~= Seq::new(i as nat, |r: int| m[r][j as int]));
        }
        t.push(col);
        j = j + 1;
    }
    proof {
        assert(cells_view(t@) =~= transposed(m, n as nat, columns as nat));
    }
    t
}

/// The best total that the tokens reach against the segments of a path:
/// `cells[t][s]` is the match score of token `t` on segment `s` (`columns`
/// segments), and the total is that of a maximum-weight matching of tokens
/// to segments, each used at most once (see `is_best_matching`). When there
/// are more tokens than segments, the segments pick their tokens, so no
/// token is left out for its place in the list. `None` when there is no
/// token, no segment, or the best total is zero.
pub fn assignment_total(cells: &Vec<Vec<i64>>, columns: usize) -> (r: Option<i64>)
    requires
        cells@.len() <= MAX_CELL || columns <= MAX_CELL,
        forall|i: int| 0 <= i < cells@.len() ==> (#[trigger] cells@[i])@.len() == columns,
        forall|i: int, j: int|
            0 <= i < cells@.len() && 0 <= j < columns ==> 0 <= #[trigger] cells@[i]@[j] <= MAX_CELL,
    ensures
        match r {
            Some(t) => cells@.len() > 0 && columns > 0 && t > 0 && is_best_matching(
                cells_view(cells@),
                cells@.len(),
                columns as nat,
                t as int,
            ),
            None => cells@.len() == 0 || columns == 0 || is_best_matching(
                cells_view(cells@),
                cells@.len(),
                columns as nat,
                0,
            ),
        },
{
    if cells.len() == 0 || columns == 0 {
        return None;
    }
    let n = cells.len();
    let ghost m = cells_view(cells@);
    let total: i64;
    if n <= columns {
        let (tot, assignment) = kuhn_munkres_max(cells, n, columns);
        proof {
            assert forall|i: int, j: int| 0 <= i < assignment@.len() && 0 <= j < m[i].len() implies 0
                <= #[trigger] m[i][j] by {
                assert(m[i] == cells@[i]@);
            }
            assert forall|i: int| 0 <= i < assignment@.len() implies 0 <= #[trigger] assignment@[i] < m[i].len() by {
                assert(m[i] == cells@[i]@);
            }
            lemma_weight_nonneg(m, assignment@);
            assert(is_best(m, n as nat, columns as nat, tot as int));
        }
        total = tot;
    } else {
        let t = transpose(cells, columns);
        let ghost tm = cells_view(t@);
        proof {
            assert(tm.len() == t@.len());
            assert(tm.len() == columns);
            assert forall|j: int| 0 <= j < columns implies (#[trigger] t@[j])@.len() == n by {
                assert(tm[j] == t@[j]@);
            }
            assert forall|j: int, i: int| 0 <= j < columns && 0 <= i < n implies 0 <= #[trigger] t@[j]@[i]
                <= MAX_CELL by {
                assert(tm[j] == t@[j]@);
                assert(m[i] == cells@[i]@);
                assert(t@[j]@[i] == m[i][j]);
            }
        }
        let (tot, assignment) = kuhn_munkres_max(&t, columns, n);
        proof {
            assert forall|i: int, j: int| 0 <= i < assignment@.len() && 0 <= j < tm[i].len() implies 0
                <= #[trigger] tm[i][j] by {
                assert(tm[i] == t@[i]@);
                assert(m[j] == cells@[j]@);
            }
            assert forall|i: int| 0 <= i < assignment@.len() implies 0 <= #[trigger] assignment@[i] < tm[i].len() by {
                assert(tm[i] == t@[i]@);
            }
            lemma_weight_nonneg(tm, assignment@);
            assert(is_best(tm, columns as nat, n as nat, tot as int));
        }
        total = tot;
    }
    if total == 0 {
        None
    } else {
        Some(total)
    }
}

} // verus!
